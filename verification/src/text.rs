//! Small verified helpers on strings: equality, whitespace, joining paths,
//! taking the last component of a path.

use vstd::prelude::*;
use vstd::multiset::Multiset;
use vstd::string::*;

verus! {

/// Character-wise equality of two string slices.
pub fn str_eq(a: &str, b: &str) -> (r: bool)
    ensures
        r == (a@ == b@),
{
    let n = a.unicode_len();
    let m = b.unicode_len();
    if n != m {
        return false;
    }
    for i in 0..n
        invariant
            n == a@.len(),
            n == b@.len(),
            forall|j: int| 0 <= j < i ==> a@[j] == b@[j],
    {
        if a.get_char(i) != b.get_char(i) {
            return false;
        }
    }
    proof {
        assert(a@ =~= b@);
    }
    true
}

/// Whether `v` holds a string whose characters equal `s`.
pub open spec fn seq_contains_string(v: Seq<Seq<char>>, s: Seq<char>) -> bool {
    exists|j: int| 0 <= j < v.len() && v[j] == s
}

/// Membership of a string in a vector of strings.
pub fn vec_contains_str(v: &Vec<String>, s: &str) -> (r: bool)
    ensures
        r == seq_contains_string(v.deep_view(), s@),
{
    let n = v.len();
    for i in 0..n
        invariant
            n == v.len(),
            forall|j: int| 0 <= j < i ==> v.deep_view()[j] != s@,
    {
        assert(v.deep_view()[i as int] == v[i as int]@);
        if str_eq(v[i].as_str(), s) {
            return true;
        }
    }
    false
}

/// The path of an entry named `name` directly inside the directory `root`.
pub open spec fn spec_join_path(root: Seq<char>, name: Seq<char>) -> Seq<char> {
    root + "/"@ + name
}

/// Joins a directory path and the name of one of its entries with `/`.
pub fn join_path(root: &str, name: &str) -> (r: String)
    ensures
        r@ == spec_join_path(root@, name@),
{
    let mut r = String::from_str(root);
    r.append("/");
    r.append(name);
    r
}

/// Whether `c` is a whitespace character (the Unicode `White_Space` set).
pub open spec fn is_space_char(c: char) -> bool {
    let u = c as u32;
    (0x09 <= u && u <= 0x0D) || u == 0x20 || u == 0x85 || u == 0xA0 || u == 0x1680 || (0x2000 <= u
        && u <= 0x200A) || u == 0x2028 || u == 0x2029 || u == 0x202F || u == 0x205F || u == 0x3000
}

/// Runtime test for `is_space_char`.
pub fn is_space(c: char) -> (r: bool)
    ensures
        r == is_space_char(c),
{
    let u = c as u32;
    (0x09 <= u && u <= 0x0D) || u == 0x20 || u == 0x85 || u == 0xA0 || u == 0x1680 || (0x2000 <= u
        && u <= 0x200A) || u == 0x2028 || u == 0x2029 || u == 0x202F || u == 0x205F || u == 0x3000
}

/// `s` without its leading whitespace.
pub open spec fn trim_front(s: Seq<char>) -> Seq<char>
    decreases s.len(),
{
    if s.len() > 0 && is_space_char(s[0]) {
        trim_front(s.drop_first())
    } else {
        s
    }
}

/// `s` without its trailing whitespace.
pub open spec fn trim_back(s: Seq<char>) -> Seq<char>
    decreases s.len(),
{
    if s.len() > 0 && is_space_char(s.last()) {
        trim_back(s.drop_last())
    } else {
        s
    }
}

/// `s` without leading and trailing whitespace.
pub open spec fn trim_spec(s: Seq<char>) -> Seq<char> {
    trim_back(trim_front(s))
}

/// Returns the slice of `s` with leading and trailing whitespace removed.
pub fn trim_str<'a>(s: &'a str) -> (r: &'a str)
    ensures
        r@ == trim_spec(s@),
{
    let n = s.unicode_len();
    let mut a: usize = 0;
    proof {
        assert(s@.skip(0) =~= s@);
    }
    while a < n && is_space(s.get_char(a))
        invariant
            0 <= a <= n,
            n == s@.len(),
            trim_front(s@.skip(a as int)) == trim_front(s@),
        decreases n - a,
    {
        proof {
            assert(s@.skip(a as int).drop_first() =~= s@.skip(a as int + 1));
        }
        a = a + 1;
    }
    proof {
        assert(trim_front(s@) == s@.skip(a as int));
    }
    let mut b: usize = n;
    while b > a && is_space(s.get_char(b - 1))
        invariant
            a <= b <= n,
            n == s@.len(),
            trim_back(s@.subrange(a as int, b as int)) == trim_back(s@.skip(a as int)),
        decreases b,
    {
        proof {
            assert(s@.subrange(a as int, b as int).drop_last() =~= s@.subrange(
                a as int,
                b as int - 1,
            ));
        }
        b = b - 1;
    }
    proof {
        assert(trim_back(s@.subrange(a as int, b as int)) == s@.subrange(a as int, b as int));
    }
    s.substring_char(a, b)
}

/// The trailing component of a path: everything after the final `/`; the
/// whole path when it holds no `/`, and empty when it ends with one.
pub open spec fn last_component(p: Seq<char>) -> Seq<char>
    decreases p.len(),
{
    if p.len() == 0 {
        p
    } else if p.last() == '/' {
        Seq::<char>::empty()
    } else {
        last_component(p.drop_last()).push(p.last())
    }
}

/// The filename of a `/`-separated path: its last normal component.
/// Trailing slashes are ignored and `.` components are normalised away; a
/// path with no file name (empty, a bare root, or one that terminates in
/// `..`) gives the empty string.
pub open spec fn file_name_spec(p: Seq<char>) -> Seq<char>
    decreases p.len(),
{
    if p.len() == 0 {
        Seq::<char>::empty()
    } else if p.last() == '/' {
        file_name_spec(p.drop_last())
    } else {
        let name = last_component(p);
        if name == seq!['.'] {
            file_name_spec(p.drop_last())
        } else if name == seq!['.', '.'] {
            Seq::<char>::empty()
        } else {
            name
        }
    }
}

/// Finds the start of the trailing component of `path` up to `end`: the
/// position after the last `/` before `end`, or 0.
fn component_start(path: &str, end: usize) -> (b: usize)
    requires
        end <= path@.len(),
    ensures
        b <= end,
        b == 0 || path@[b - 1] == '/',
        forall|j: int| b <= j < end ==> path@[j] != '/',
        last_component(path@.take(end as int)) == path@.subrange(b as int, end as int),
{
    let mut b: usize = end;
    proof {
        assert(last_component(path@.take(end as int)) =~= last_component(
            path@.take(end as int),
        ) + path@.subrange(end as int, end as int));
    }
    while b > 0 && path.get_char(b - 1) != '/'
        invariant
            b <= end <= path@.len(),
            forall|j: int| b <= j < end ==> path@[j] != '/',
            last_component(path@.take(end as int)) == last_component(path@.take(b as int))
                + path@.subrange(b as int, end as int),
        decreases b,
    {
        proof {
            assert(path@.take(b as int).last() == path@[b - 1]);
            assert(path@.take(b as int).drop_last() =~= path@.take(b as int - 1));
            assert(last_component(path@.take(b as int - 1)).push(path@[b - 1]) + path@.subrange(
                b as int,
                end as int,
            ) =~= last_component(path@.take(b as int - 1)) + path@.subrange(
                b as int - 1,
                end as int,
            ));
        }
        b = b - 1;
    }
    proof {
        if b == 0 {
            assert(last_component(path@.take(0)) =~= Seq::<char>::empty());
        } else {
            assert(path@.take(b as int).last() == path@[b - 1]);
            assert(last_component(path@.take(b as int)) =~= Seq::<char>::empty());
        }
        assert(Seq::<char>::empty() + path@.subrange(b as int, end as int) =~= path@.subrange(
            b as int,
            end as int,
        ));
    }
    b
}

/// Strips trailing slashes and trailing `.` components from `path` up to
/// `end`, keeping the file name unchanged.
fn trim_path_end(path: &str, end: usize) -> (r: usize)
    requires
        end <= path@.len(),
    ensures
        r <= end,
        file_name_spec(path@.take(end as int)) == file_name_spec(path@.take(r as int)),
        r > 0 ==> path@[r - 1] != '/' && last_component(path@.take(r as int)) != seq!['.'],
    decreases end,
{
    if end == 0 {
        return 0;
    }
    if path.get_char(end - 1) == '/' {
        proof {
            assert(path@.take(end as int).last() == path@[end - 1]);
            assert(path@.take(end as int).drop_last() =~= path@.take(end as int - 1));
        }
        return trim_path_end(path, end - 1);
    }
    let b = component_start(path, end);
    if end - b == 1 && path.get_char(b) == '.' {
        proof {
            assert(path@.take(end as int).last() == path@[end - 1]);
            assert(path@.take(end as int).drop_last() =~= path@.take(end as int - 1));
            assert(last_component(path@.take(end as int)) =~= seq!['.']);
        }
        return trim_path_end(path, end - 1);
    }
    proof {
        assert(last_component(path@.take(end as int)) != seq!['.']) by {
            if path@.subrange(b as int, end as int) == seq!['.'] {
                assert(path@.subrange(b as int, end as int).len() == 1);
                assert(path@.subrange(b as int, end as int)[0] == path@[b as int]);
            }
        }
    }
    end
}

/// Gets the filename of a `/`-separated path: the last normal component,
/// or the empty string when the path has no file name (it is empty, a bare
/// root, or terminates in `..`). Trailing slashes and `.` components are
/// ignored.
pub fn file_name(path: &str) -> (r: &str)
    ensures
        r@ == file_name_spec(path@),
{
    let n = path.unicode_len();
    proof {
        assert(path@.take(n as int) =~= path@);
        reveal_strlit("");
        assert(""@ =~= Seq::<char>::empty());
    }
    let end = trim_path_end(path, n);
    if end == 0 {
        proof {
            assert(file_name_spec(path@.take(0)) =~= Seq::<char>::empty());
        }
        return "";
    }
    let b = component_start(path, end);
    proof {
        assert(path@.take(end as int).last() == path@[end - 1]);
    }
    if end - b == 2 && path.get_char(b) == '.' && path.get_char(b + 1) == '.' {
        proof {
            assert(last_component(path@.take(end as int)) =~= seq!['.', '.']);
        }
        return "";
    }
    proof {
        assert(last_component(path@.take(end as int)) != seq!['.', '.']) by {
            if path@.subrange(b as int, end as int) == seq!['.', '.'] {
                assert(path@.subrange(b as int, end as int).len() == 2);
                assert(path@.subrange(b as int, end as int)[0] == path@[b as int]);
                assert(path@.subrange(b as int, end as int)[1] == path@[b as int + 1]);
            }
        }
        assert(file_name_spec(path@.take(end as int)) == path@.subrange(b as int, end as int));
    }
    path.substring_char(b, end)
}

/// Lexicographic order on character sequences, by code point.
pub open spec fn lex_le(a: Seq<char>, b: Seq<char>) -> bool
    decreases a.len(),
{
    if a.len() == 0 {
        true
    } else if b.len() == 0 {
        false
    } else if a[0] == b[0] {
        lex_le(a.drop_first(), b.drop_first())
    } else {
        (a[0] as u32) < (b[0] as u32)
    }
}

/// The order is total.
pub proof fn lemma_lex_total(a: Seq<char>, b: Seq<char>)
    ensures
        lex_le(a, b) || lex_le(b, a),
    decreases a.len(),
{
    if a.len() > 0 && b.len() > 0 {
        if a[0] == b[0] {
            lemma_lex_total(a.drop_first(), b.drop_first());
        } else {
            vstd::utf8::char_u32_cast(a[0], a[0] as u32);
            vstd::utf8::char_u32_cast(b[0], b[0] as u32);
            assert((a[0] as u32) != (b[0] as u32));
        }
    }
}

/// The order is transitive.
pub proof fn lemma_lex_trans(a: Seq<char>, b: Seq<char>, c: Seq<char>)
    requires
        lex_le(a, b),
        lex_le(b, c),
    ensures
        lex_le(a, c),
    decreases a.len(),
{
    if a.len() > 0 && b.len() > 0 && c.len() > 0 && a[0] == b[0] && b[0] == c[0] {
        lemma_lex_trans(a.drop_first(), b.drop_first(), c.drop_first());
    }
}

/// Lexicographic comparison of two string slices.
pub fn str_le(a: &str, b: &str) -> (r: bool)
    ensures
        r == lex_le(a@, b@),
{
    let na = a.unicode_len();
    let nb = b.unicode_len();
    let n = if na <= nb {
        na
    } else {
        nb
    };
    let mut i: usize = 0;
    proof {
        assert(a@.skip(0) =~= a@);
        assert(b@.skip(0) =~= b@);
    }
    while i < n && a.get_char(i) == b.get_char(i)
        invariant
            i <= n,
            na == a@.len(),
            nb == b@.len(),
            n == if na <= nb {
                na
            } else {
                nb
            },
            lex_le(a@, b@) == lex_le(a@.skip(i as int), b@.skip(i as int)),
        decreases n - i,
    {
        proof {
            assert(a@.skip(i as int).drop_first() =~= a@.skip(i as int + 1));
            assert(b@.skip(i as int).drop_first() =~= b@.skip(i as int + 1));
        }
        i = i + 1;
    }
    if i == n {
        proof {
            if na <= nb {
                assert(a@.skip(i as int).len() == 0);
            } else {
                assert(b@.skip(i as int).len() == 0);
                assert(a@.skip(i as int).len() > 0);
            }
        }
        na <= nb
    } else {
        let ca = a.get_char(i);
        let cb = b.get_char(i);
        proof {
            assert(a@.skip(i as int)[0] == a@[i as int]);
            assert(b@.skip(i as int)[0] == b@[i as int]);
        }
        (ca as u32) < (cb as u32)
    }
}

/// Whether a sequence of paths is sorted lexicographically.
pub open spec fn lex_sorted(s: Seq<Seq<char>>) -> bool {
    forall|i: int, j: int| 0 <= i < j < s.len() ==> lex_le(s[i], s[j])
}

/// Sorts paths lexicographically by insertion; the result holds exactly the
/// input strings.
pub fn sort_paths(v: Vec<String>) -> (r: Vec<String>)
    ensures
        lex_sorted(r.deep_view()),
        r.deep_view().to_multiset() == v.deep_view().to_multiset(),
{
    broadcast use vstd::seq_lib::group_to_multiset_ensures;

    let mut out: Vec<String> = Vec::new();
    let mut rest = v;
    let ghost all = rest.deep_view();
    proof {
        assert(out.deep_view() =~= Seq::<Seq<char>>::empty());
        assert(out.deep_view().to_multiset().add(rest.deep_view().to_multiset())
            =~= all.to_multiset());
    }
    while rest.len() > 0
        invariant
            lex_sorted(out.deep_view()),
            out.deep_view().to_multiset().add(rest.deep_view().to_multiset())
                == all.to_multiset(),
        decreases rest@.len(),
    {
        let ghost rest_before = rest.deep_view();
        let s = rest.remove(0);
        proof {
            assert(rest.deep_view() =~~= rest_before.drop_first());
            assert(s@ == rest_before[0]);
            assert(rest_before.drop_first() =~= rest_before.remove(0));
            rest_before.to_multiset_ensures();
            assert(rest_before.remove(0).to_multiset() =~= rest_before.to_multiset().remove(
                rest_before[0],
            ));
        }
        let mut idx = out.len();
        while idx > 0 && !str_le(out[idx - 1].as_str(), s.as_str())
            invariant
                idx <= out.len(),
                lex_sorted(out.deep_view()),
                forall|m: int|
                    idx <= m < out.deep_view().len() ==> lex_le(
                        s@,
                        #[trigger] out.deep_view()[m],
                    ),
            decreases idx,
        {
            proof {
                lemma_lex_total(out.deep_view()[idx - 1], s@);
                assert(out.deep_view()[idx - 1] == out@[idx - 1]@);
            }
            idx = idx - 1;
        }
        let ghost out_before = out.deep_view();
        let ghost pos = idx as int;
        out.insert(idx, s);
        proof {
            assert(out.deep_view() =~~= out_before.insert(pos, s@));
            let now = out.deep_view();
            // Sortedness around the insertion point.
            assert forall|i: int, j: int| 0 <= i < j < now.len() implies lex_le(
                now[i],
                now[j],
            ) by {
                if j < pos {
                    assert(now[i] == out_before[i] && now[j] == out_before[j]);
                } else if i > pos {
                    assert(now[i] == out_before[i - 1] && now[j] == out_before[j - 1]);
                } else if i == pos {
                    assert(now[i] == s@ && now[j] == out_before[j - 1]);
                } else if j == pos {
                    assert(now[i] == out_before[i] && now[j] == s@);
                    assert(lex_le(out_before[pos - 1], s@));
                    if i < pos - 1 {
                        lemma_lex_trans(out_before[i], out_before[pos - 1], s@);
                    }
                } else {
                    assert(i < pos && j > pos);
                    assert(now[i] == out_before[i] && now[j] == out_before[j - 1]);
                }
            }
            // The inserted element joins the multiset.
            assert(now.remove(pos) =~~= out_before);
            now.to_multiset_ensures();
            assert(now.remove(pos).to_multiset() =~= now.to_multiset().remove(now[pos]));
            assert(now.contains(s@));
            assert(now.to_multiset().count(s@) > 0);
            assert(now.to_multiset() =~= out_before.to_multiset().insert(s@));
            assert(now.to_multiset().add(rest.deep_view().to_multiset()) =~= all.to_multiset());
        }
    }
    proof {
        assert(rest.deep_view().to_multiset().len() == 0);
        assert(rest.deep_view().to_multiset() =~= Multiset::<Seq<char>>::empty());
        assert(out.deep_view().to_multiset().add(Multiset::<Seq<char>>::empty())
            =~= out.deep_view().to_multiset());
    }
    out
}

} // verus!
