//! Shortening a text in its middle until it fits.
//!
//! How wide a text is drawn is not known here: the search asks whether a candidate
//! fits, and is told.

use crate::text::string_of;
use vstd::prelude::*;
use vstd::slice::slice_subrange;

verus! {

/// The text with all but `keep` characters replaced by an ellipsis: the beginning
/// and the end stay, and the beginning has the odd one.
pub open spec fn shortened(s: Seq<char>, keep: int) -> Seq<char> {
    let head = (keep + 1) / 2;
    s.take(head).push('\u{2026}') + s.skip(s.len() - (keep - head))
}

/// The text with all but `keep` characters replaced by an ellipsis.
pub fn keep_ends(s: &[char], keep: usize) -> (r: String)
    requires
        keep <= s@.len(),
    ensures
        r@ == shortened(s@, keep as int),
{
    let head: usize = keep - keep / 2;
    let tail: usize = keep - head;
    let mut out = string_of(slice_subrange(s, 0, head));
    out.push('\u{2026}');
    let end = slice_subrange(s, s.len() - tail, s.len());
    let n: usize = end.len();
    let ghost front = out@;
    assert(front == s@.take(head as int).push('\u{2026}'));
    assert(end@ == s@.skip(s@.len() - tail));
    for i in 0..n
        invariant
            n == end@.len(),
            out@ == front + end@.take(i as int),
    {
        out.push(end[i]);
        assert((front + end@.take(i as int)).push(end@[i as int]) == front + end@.take(i + 1));
    }
    assert(end@.take(n as int) == end@);
    assert(front + Seq::<char>::empty() == front);
    out
}

/// A search for the most characters that can be kept.
#[derive(Debug, Clone, Copy, PartialEq, Eq, Structural)]
pub struct FitSearch {
    /// The least number that was not tried and may fit.
    pub lo: usize,
    /// One more than the greatest number that may fit.
    pub end: usize,
    /// The greatest number that was found to fit.
    pub best: Option<usize>,
}

impl FitSearch {
    /// The search in a text of so many characters, which as a whole does not fit.
    pub fn new(len: usize) -> (r: Self)
        ensures
            r == (FitSearch { lo: 0, end: if len == 0 {
                1
            } else {
                len
            }, best: None }),
    {
        FitSearch { lo: 0, end: if len == 0 {
            1
        } else {
            len
        }, best: None }
    }

    /// The number to try next.
    pub open spec fn middle(self) -> int {
        (self.lo + self.end - 1) / 2
    }

    /// The number of characters to try next; none when the search is over.
    pub fn probe(&self) -> (r: Option<usize>)
        ensures
            match r {
                Some(keep) => self.lo < self.end && keep == self.middle(),
                None => self.lo >= self.end,
            },
    {
        if self.lo < self.end {
            Some(self.lo + (self.end - 1 - self.lo) / 2)
        } else {
            None
        }
    }

    /// Takes in whether the number that was tried fits.
    pub fn tell(&mut self, fits: bool)
        requires
            old(self).lo < old(self).end,
        ensures
            *final(self) == if fits {
                FitSearch {
                    lo: (old(self).middle() + 1) as usize,
                    best: Some(old(self).middle() as usize),
                    ..*old(self)
                }
            } else {
                FitSearch { end: old(self).middle() as usize, ..*old(self) }
            },
    {
        let keep: usize = self.lo + (self.end - 1 - self.lo) / 2;
        if fits {
            self.lo = keep + 1;
            self.best = Some(keep);
        } else {
            self.end = keep;
        }
    }

    /// The text with as many characters kept as were found to fit, or the ellipsis
    /// alone.
    pub fn result(&self, s: &[char]) -> (r: String)
        requires
            self.best matches Some(keep) ==> keep <= s@.len(),
        ensures
            r@ == shortened(s@, match self.best {
                Some(keep) => keep as int,
                None => 0,
            }),
    {
        match self.best {
            Some(keep) => keep_ends(s, keep),
            None => keep_ends(s, 0),
        }
    }
}

/// What the search knows, where a number fits exactly if it is below `limit`: all
/// numbers below `lo` fit, those from `end` on do not, and the best is the one
/// before `lo`.
pub open spec fn on_track(f: FitSearch, limit: int) -> bool {
    &&& f.lo <= limit <= f.end
    &&& f.best == if f.lo == 0 {
        None
    } else {
        Some((f.lo - 1) as usize)
    }
}

/// The search with the answer that the number tried gets.
pub open spec fn told(f: FitSearch, limit: int) -> FitSearch {
    if f.middle() < limit {
        FitSearch { lo: (f.middle() + 1) as usize, best: Some(f.middle() as usize), ..f }
    } else {
        FitSearch { end: f.middle() as usize, ..f }
    }
}

/// If keeping fewer characters never makes a text wider, every step of the search
/// keeps what it knows right and comes nearer to the end, and when it is over, the
/// best is the greatest number that fits.
pub proof fn search_finds_the_widest(f: FitSearch, limit: int)
    requires
        on_track(f, limit),
    ensures
        f.lo < f.end ==> on_track(told(f, limit), limit) && told(f, limit).end - told(
            f,
            limit,
        ).lo < f.end - f.lo,
        f.lo >= f.end ==> f.best == if limit == 0 {
            None
        } else {
            Some((limit - 1) as usize)
        },
{
}

/// A shortened text begins as the text begins and ends as it ends, with one ellipsis
/// between; half of what is kept stands before it, and the odd character too.
pub proof fn ends_are_kept(s: Seq<char>, keep: int, i: int)
    requires
        0 <= keep <= s.len(),
        0 <= i,
    ensures
        shortened(s, keep).len() == keep + 1,
        2 * i < keep ==> shortened(s, keep)[i] == s[i],
        2 * i + 1 < keep ==> shortened(s, keep)[keep - i] == s[s.len() - 1 - i],
        2 * i == keep || 2 * i == keep + 1 ==> shortened(s, keep)[i] == '\u{2026}',
{
}

} // verus!
