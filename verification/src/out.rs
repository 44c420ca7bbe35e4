//! The state of the terminal progress display. Rendering to the terminal
//! happens outside the library; here only the state transitions are defined.

use vstd::prelude::*;
use vstd::string::*;

verus! {

/// A progress bar: a number of completed steps out of a total, with a label
/// in front and a status text after the bar.
pub struct Progress {
    total: usize,
    progress: usize,
    label: String,
    status: String,
}

impl Progress {
    /// Total number of steps (always at least 1).
    pub closed spec fn total_spec(&self) -> int {
        self.total as int
    }

    /// Number of completed steps.
    pub closed spec fn progress_spec(&self) -> int {
        self.progress as int
    }

    /// The label displayed in front of the bar.
    pub closed spec fn label_view(&self) -> Seq<char> {
        self.label@
    }

    /// The status text displayed after the bar.
    pub closed spec fn status_view(&self) -> Seq<char> {
        self.status@
    }

    /// The completed steps never exceed the total.
    pub open spec fn wf(&self) -> bool {
        0 < self.total_spec() && 0 <= self.progress_spec() <= self.total_spec()
    }

    /// Initialises a progress bar of `total` steps (at least 1).
    pub fn new(total: usize, label: &str) -> (p: Progress)
        ensures
            p.total_spec() == if total < 1 {
                1int
            } else {
                total as int
            },
            p.progress_spec() == 0,
            p.label_view() == label@,
            p.status_view() == Seq::<char>::empty(),
            p.wf(),
    {
        let total = if total < 1 {
            1
        } else {
            total
        };
        Progress {
            total,
            progress: 0,
            label: String::from_str(label),
            status: String::new(),
        }
    }

    /// Increases the progress by one step, up to the total; returns the new
    /// progress.
    pub fn step(&mut self) -> (r: usize)
        ensures
            final(self).progress_spec() == if old(self).progress_spec() < old(
                self,
            ).total_spec() {
                old(self).progress_spec() + 1
            } else {
                old(self).progress_spec()
            },
            r as int == final(self).progress_spec(),
            final(self).total_spec() == old(self).total_spec(),
            final(self).label_view() == old(self).label_view(),
            final(self).status_view() == old(self).status_view(),
            old(self).wf() ==> final(self).wf(),
    {
        if self.progress < self.total {
            self.progress = self.progress + 1;
        }
        self.progress
    }

    /// Sets the progress, clamped to the total.
    pub fn progress(&mut self, progress: usize)
        ensures
            final(self).progress_spec() == if progress as int > old(self).total_spec() {
                old(self).total_spec()
            } else {
                progress as int
            },
            final(self).total_spec() == old(self).total_spec(),
            final(self).label_view() == old(self).label_view(),
            final(self).status_view() == old(self).status_view(),
            old(self).wf() ==> final(self).wf(),
    {
        self.progress = progress;
        if self.progress > self.total {
            self.progress = self.total;
        }
    }

    /// Sets the status text.
    pub fn status(&mut self, status: &str)
        ensures
            final(self).status_view() == status@,
            final(self).total_spec() == old(self).total_spec(),
            final(self).progress_spec() == old(self).progress_spec(),
            final(self).label_view() == old(self).label_view(),
            old(self).wf() ==> final(self).wf(),
    {
        self.status = String::from_str(status);
    }
}

/// Returns one of two values, depending on whether the count is 1 or not.
#[inline]
pub fn plural<T>(count: usize, singular: T, plural_form: T) -> (r: T)
    ensures
        r == if count == 1 {
            singular
        } else {
            plural_form
        },
{
    if count == 1 {
        singular
    } else {
        plural_form
    }
}

/// What `shorten` returns: the message itself when it fits in `max_width`
/// characters, else its first quarter-width characters, an ellipsis of three
/// dots, and as much of its tail as still fits.
pub open spec fn shorten_spec(message: Seq<char>, max_width: int) -> Seq<char> {
    let len = message.len() as int;
    if len <= max_width {
        message
    } else {
        let break_index = max_width / 4;
        let cut = len - max_width + break_index + 3;
        let cut = if cut > len {
            len
        } else {
            cut
        };
        message.take(break_index) + "..."@ + message.skip(cut)
    }
}

/// Shortens a message by omitting the middle part and replacing it with
/// `...`. A message no longer than `max_width` characters is returned
/// unchanged. Lengths are counted in characters.
pub fn shorten(message: String, max_width: usize) -> (r: String)
    ensures
        r@ == shorten_spec(message@, max_width as int),
{
    let len = message.as_str().unicode_len();
    if len <= max_width {
        return message;
    }
    let break_index = max_width / 4;
    // The cut point is len - max_width + break_index + 3, clamped to the end
    // of the message; computed without intermediate overflow.
    let kept_tail = max_width - break_index;
    let cut = if kept_tail >= 3 {
        len - (kept_tail - 3)
    } else {
        len
    };
    let prefix = message.as_str().substring_char(0, break_index);
    let suffix = message.as_str().substring_char(cut, len);
    let r = String::from_str(prefix).concat("...").concat(suffix);
    proof {
        assert(message@.take(break_index as int) =~= message@.subrange(0, break_index as int));
        assert(message@.skip(cut as int) =~= message@.subrange(cut as int, len as int));
        assert(r@ =~= shorten_spec(message@, max_width as int));
    }
    r
}

} // verus!
