//! Parsing of a project's override file (`.swpfile` / `.cleanuprc`): UTF-8
//! text, one cleanable path per line; lines are trimmed, blank lines and
//! lines starting with `#` are ignored, duplicates are collapsed, order is
//! otherwise preserved.

use vstd::prelude::*;
use vstd::string::*;
use crate::text::{seq_contains_string, trim_spec, trim_str, str_eq, vec_contains_str};

verus! {

/// Position of the first `'\n'` in `s`, or `s.len()` if there is none.
pub open spec fn first_nl(s: Seq<char>) -> nat
    decreases s.len(),
{
    if s.len() == 0 {
        0
    } else if s[0] == '\n' {
        0
    } else {
        1 + first_nl(s.drop_first())
    }
}

/// The `'\n'`-separated segments of `s`, in order. A text of `k` newlines has
/// `k + 1` segments; none of them contains a newline.
pub open spec fn split_lines(s: Seq<char>) -> Seq<Seq<char>>
    decreases s.len(),
{
    let i = first_nl(s);
    if i >= s.len() {
        seq![s]
    } else {
        seq![s.take(i as int)] + split_lines(s.skip(i as int + 1))
    }
}

/// Processes `lines` in order, starting from the already-kept entries `acc`:
/// each line is trimmed, and kept unless it is empty, starts with `#`, or was
/// kept before.
pub open spec fn sift_lines(lines: Seq<Seq<char>>, acc: Seq<Seq<char>>) -> Seq<Seq<char>>
    decreases lines.len(),
{
    if lines.len() == 0 {
        acc
    } else {
        let t = trim_spec(lines.first());
        let kept = if t.len() == 0 || t[0] == '#' || seq_contains_string(acc, t) {
            acc
        } else {
            acc.push(t)
        };
        sift_lines(lines.drop_first(), kept)
    }
}

/// The entries of an override file with contents `s`.
pub open spec fn parse_override(s: Seq<char>) -> Seq<Seq<char>> {
    sift_lines(split_lines(s), Seq::<Seq<char>>::empty())
}

proof fn lemma_first_nl_at(s: Seq<char>, k: int)
    requires
        0 <= k <= s.len(),
        forall|j: int| 0 <= j < k ==> s[j] != '\n',
        k < s.len() ==> s[k] == '\n',
    ensures
        first_nl(s) == k,
    decreases k,
{
    if k == 0 {
        if s.len() > 0 {
            assert(s[0] == '\n');
        }
    } else {
        assert(s[0] != '\n');
        lemma_first_nl_at(s.drop_first(), k - 1);
    }
}

/// Parses the contents of an override file into the list of cleanable paths
/// it names.
pub fn parse_swpfile(text: &str) -> (r: Vec<String>)
    ensures
        r.deep_view() == parse_override(text@),
{
    let n = text.unicode_len();
    let mut out: Vec<String> = Vec::new();
    let mut pos: usize = 0;
    let mut done = false;
    proof {
        assert(text@.skip(0) =~= text@);
        assert(out.deep_view() =~= Seq::<Seq<char>>::empty());
    }
    while !done
        invariant
            pos <= n,
            n == text@.len(),
            !done ==> sift_lines(split_lines(text@.skip(pos as int)), out.deep_view())
                == parse_override(text@),
            done ==> out.deep_view() == parse_override(text@),
        decreases n - pos + (if done { 0int } else { 1int }),
    {
        // Find the end of the current line.
        let mut i: usize = pos;
        while i < n && text.get_char(i) != '\n'
            invariant
                pos <= i <= n,
                n == text@.len(),
                forall|j: int| pos <= j < i ==> text@[j] != '\n',
            decreases n - i,
        {
            i = i + 1;
        }
        let ghost rest = text@.skip(pos as int);
        proof {
            lemma_first_nl_at(rest, i - pos as int);
        }
        let line = text.substring_char(pos, i);
        proof {
            assert(line@ =~= rest.take(i - pos as int));
        }
        let t = trim_str(line);
        let keep = !(t.unicode_len() == 0 || t.get_char(0) == '#' || vec_contains_str(&out, t));
        let ghost old_out = out.deep_view();
        if keep {
            out.push(t.to_owned());
            proof {
                assert(out.deep_view() =~= old_out.push(trim_spec(line@)));
            }
        }
        proof {
            let t_spec = trim_spec(line@);
            let kept = if t_spec.len() == 0 || t_spec[0] == '#' || seq_contains_string(
                old_out,
                t_spec,
            ) {
                old_out
            } else {
                old_out.push(t_spec)
            };
            assert(out.deep_view() == kept);
        }
        if i == n {
            proof {
                let lines = split_lines(rest);
                assert(line@ =~= rest);
                assert(lines =~= seq![rest]);
                assert(lines.first() == line@);
                assert(lines.drop_first() =~= Seq::<Seq<char>>::empty());
                assert(sift_lines(lines.drop_first(), out.deep_view()) == out.deep_view());
                assert(sift_lines(lines, old_out) == out.deep_view());
            }
            done = true;
        } else {
            proof {
                let lines = split_lines(rest);
                assert(lines =~= seq![rest.take(i - pos as int)] + split_lines(
                    rest.skip(i - pos as int + 1),
                ));
                assert(rest.skip(i - pos as int + 1) =~= text@.skip(i as int + 1));
                assert(lines.first() == line@);
                assert(lines.drop_first() =~= split_lines(text@.skip(i as int + 1)));
                assert(sift_lines(lines, old_out) == sift_lines(
                    split_lines(text@.skip(i as int + 1)),
                    out.deep_view(),
                ));
            }
            pos = i + 1;
        }
    }
    out
}

/// Parses the contents of a `.cleanuprc` file; the format is the same as for
/// a `.swpfile`.
pub fn parse_cleanuprc(text: &str) -> (r: Vec<String>)
    ensures
        r.deep_view() == parse_override(text@),
{
    parse_swpfile(text)
}

} // verus!
