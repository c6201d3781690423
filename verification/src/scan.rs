//! The single left-to-right scan of a template body for placeholder
//! occurrences.
//!
//! A placeholder is the shortest bracketed span: an opening `[`, a nonempty
//! interior that contains no newline, and the first `]` that leaves the
//! interior nonempty. The scan runs once over the original body and never
//! over substituted text, so its result depends on the body alone.

use vstd::prelude::*;

verus! {

/// The byte that opens a placeholder: `[`.
pub const OPEN: u8 = 91;
/// The byte that closes a placeholder: `]`.
pub const CLOSE: u8 = 93;
/// A placeholder never spans a line break.
pub const NEWLINE: u8 = 10;

/// One placeholder occurrence: the half-open byte range `[start, end)` that
/// the matched text (brackets included) occupies in the original body.
#[derive(Clone, Copy, Debug)]
pub struct Occurrence {
    pub start: usize,
    pub end: usize,
}

impl View for Occurrence {
    type V = (int, int);

    open spec fn view(&self) -> (int, int) {
        (self.start as int, self.end as int)
    }
}

/// The occurrence ranges of a list of occurrences.
pub open spec fn occs_view(occs: Seq<Occurrence>) -> Seq<(int, int)> {
    occs.map_values(|o: Occurrence| o@)
}

/// The position of the first `]` at or after `from`, scanning left to right
/// and giving up at a newline or at the end of the body.
pub open spec fn close_from(s: Seq<u8>, from: int) -> Option<int>
    decreases s.len() - from,
{
    if from < 0 || from >= s.len() {
        None
    } else if s[from] == CLOSE {
        Some(from)
    } else if s[from] == NEWLINE {
        None
    } else {
        close_from(s, from + 1)
    }
}

/// The end (exclusive) of the shortest placeholder starting at `p`, if the
/// pattern matches there: `[`, then at least one byte that is not a newline,
/// up to the first `]` that leaves the interior nonempty.
pub open spec fn match_end_at(s: Seq<u8>, p: int) -> Option<int> {
    if 0 <= p && p + 1 < s.len() && s[p] == OPEN && s[p + 1] != NEWLINE {
        match close_from(s, p + 2) {
            Some(c) => Some(c + 1),
            None => None,
        }
    } else {
        None
    }
}

/// Every placeholder occurrence of `s` from position `p` on: the
/// non-overlapping left-to-right scan, each match the shortest one at the
/// leftmost position where the pattern matches, the next search resuming
/// right after it.
pub open spec fn scan_from(s: Seq<u8>, p: int) -> Seq<(int, int)>
    decreases s.len() - p,
{
    if p < 0 || p >= s.len() {
        Seq::empty()
    } else {
        match match_end_at(s, p) {
            Some(e) => {
                proof {
                    lemma_close_from_first(s, p + 2);
                }
                seq![(p, e)] + scan_from(s, e)
            }
            None => scan_from(s, p + 1),
        }
    }
}

/// `[start, end)` delimits a well-formed placeholder of `s`: brackets around
/// a nonempty interior, no newline inside, and `end - 1` the first possible
/// closing bracket.
pub open spec fn is_placeholder(s: Seq<u8>, start: int, end: int) -> bool {
    &&& 0 <= start
    &&& start + 3 <= end <= s.len()
    &&& s[start] == OPEN
    &&& s[end - 1] == CLOSE
    &&& forall|k: int| start + 1 <= k < end - 1 ==> s[k] != NEWLINE
    &&& forall|k: int| start + 2 <= k < end - 1 ==> s[k] != CLOSE
}

/// An occurrence list is well formed for `s` when every element is a
/// placeholder of `s` and the elements are non-overlapping, in left-to-right
/// order.
pub open spec fn occurrences_wf(s: Seq<u8>, occs: Seq<(int, int)>) -> bool {
    &&& forall|i: int|
        0 <= i < occs.len() ==> is_placeholder(s, (#[trigger] occs[i]).0, occs[i].1)
    &&& forall|i: int| 0 <= i < occs.len() - 1 ==> (#[trigger] occs[i]).1 <= occs[i + 1].0
}

/// A found closing bracket is in range, closes, and is the first chance to
/// close: nothing before it (from `from` on) is a `]` or a newline.
pub proof fn lemma_close_from_first(s: Seq<u8>, from: int)
    requires
        close_from(s, from) is Some,
    ensures
        from <= close_from(s, from)->Some_0 < s.len(),
        s[close_from(s, from)->Some_0] == CLOSE,
        forall|k: int|
            from <= k < close_from(s, from)->Some_0 ==> #[trigger] s[k] != CLOSE && s[k]
                != NEWLINE,
    decreases s.len() - from,
{
    if from < 0 || from >= s.len() {
    } else if s[from] == CLOSE {
    } else if s[from] == NEWLINE {
    } else {
        lemma_close_from_first(s, from + 1);
    }
}

/// A match found at `p` is a well-formed placeholder.
pub proof fn lemma_match_is_placeholder(s: Seq<u8>, p: int)
    requires
        match_end_at(s, p) is Some,
    ensures
        is_placeholder(s, p, match_end_at(s, p)->Some_0),
{
    lemma_close_from_first(s, p + 2);
}

/// The scan from `p` yields a well-formed occurrence list whose elements all
/// start at or after `p`.
pub proof fn lemma_scan_from_wf(s: Seq<u8>, p: int)
    ensures
        occurrences_wf(s, scan_from(s, p)),
        forall|i: int|
            0 <= i < scan_from(s, p).len() ==> p <= (#[trigger] scan_from(s, p)[i]).0,
    decreases s.len() - p,
{
    if p < 0 || p >= s.len() {
    } else if match_end_at(s, p) is Some {
        let e = match_end_at(s, p)->Some_0;
        lemma_match_is_placeholder(s, p);
        lemma_scan_from_wf(s, e);
        let head: Seq<(int, int)> = seq![(p, e)];
        let rest = scan_from(s, e);
        let whole = scan_from(s, p);
        assert(whole == head + rest);
        assert forall|i: int|
            0 <= i < whole.len() implies is_placeholder(s, (#[trigger] whole[i]).0, whole[i].1)
            && p <= whole[i].0 by {
            if i == 0 {
                assert(whole[i] == (p, e));
            } else {
                assert(whole[i] == rest[i - 1]);
            }
        }
        assert forall|i: int|
            0 <= i < whole.len() - 1 implies (#[trigger] whole[i]).1 <= whole[i + 1].0 by {
            if i == 0 {
                assert(whole[0] == (p, e));
                assert(whole[1] == rest[0]);
                assert(e <= rest[0].0);
            } else {
                assert(whole[i] == rest[i - 1]);
                assert(whole[i + 1] == rest[i]);
            }
        }
    } else {
        lemma_scan_from_wf(s, p + 1);
    }
}

/// Completeness of the scan: every position where the pattern matches lies
/// inside one of the recorded occurrences — between and after them nothing
/// matches, so no prompt is missed and none is invented.
pub proof fn lemma_scan_from_complete(s: Seq<u8>, p: int)
    requires
        0 <= p,
    ensures
        forall|q: int|
            p <= q < s.len() && match_end_at(s, q) is Some ==> exists|i: int|
                0 <= i < scan_from(s, p).len() && (#[trigger] scan_from(s, p)[i]).0 <= q
                    < scan_from(s, p)[i].1,
    decreases s.len() - p,
{
    if p >= s.len() {
    } else if match_end_at(s, p) is Some {
        let e = match_end_at(s, p)->Some_0;
        lemma_match_is_placeholder(s, p);
        lemma_scan_from_complete(s, e);
        let whole = scan_from(s, p);
        assert(whole == seq![(p, e)] + scan_from(s, e));
        assert forall|q: int|
            p <= q < s.len() && match_end_at(s, q) is Some implies exists|i: int|
                0 <= i < whole.len() && (#[trigger] whole[i]).0 <= q < whole[i].1 by {
            if q < e {
                assert(whole[0] == (p, e));
                assert(whole[0].0 <= q < whole[0].1);
            } else {
                let j = choose|j: int|
                    0 <= j < scan_from(s, e).len() && (#[trigger] scan_from(s, e)[j]).0 <= q
                        < scan_from(s, e)[j].1;
                assert(whole[j + 1] == scan_from(s, e)[j]);
                assert(whole[j + 1].0 <= q < whole[j + 1].1);
            }
        }
    } else {
        lemma_scan_from_complete(s, p + 1);
        assert(scan_from(s, p) == scan_from(s, p + 1));
        assert forall|q: int|
            p <= q < s.len() && match_end_at(s, q) is Some implies exists|i: int|
                0 <= i < scan_from(s, p).len() && (#[trigger] scan_from(s, p)[i]).0 <= q
                    < scan_from(s, p)[i].1 by {
            assert(q != p);
            let j = choose|j: int|
                0 <= j < scan_from(s, p + 1).len() && (#[trigger] scan_from(s, p + 1)[j]).0 <= q
                    < scan_from(s, p + 1)[j].1;
            assert(scan_from(s, p)[j].0 <= q < scan_from(s, p)[j].1);
        }
    }
}

/// Scan `body` once, left to right, for every placeholder occurrence, in
/// order of position.
pub fn scan(body: &Vec<u8>) -> (occs: Vec<Occurrence>)
    ensures
        occs_view(occs@) == scan_from(body@, 0),
{
    let ghost s = body@;
    let mut occs: Vec<Occurrence> = Vec::new();
    let mut p: usize = 0;
    while p < body.len()
        invariant
            p <= body@.len(),
            body@ == s,
            scan_from(s, 0) == occs_view(occs@) + scan_from(s, p as int),
        decreases body@.len() - p,
    {
        if body[p] == OPEN && p + 1 < body.len() && body[p + 1] != NEWLINE {
            let mut q: usize = p + 2;
            while q < body.len() && body[q] != CLOSE && body[q] != NEWLINE
                invariant
                    p + 2 <= q <= body@.len(),
                    body@ == s,
                    close_from(s, p + 2) == close_from(s, q as int),
                decreases body@.len() - q,
            {
                q = q + 1;
            }
            if q < body.len() && body[q] == CLOSE {
                assert(close_from(s, q as int) == Some(q as int));
                assert(match_end_at(s, p as int) == Some(q + 1 as int));
                let ghost before = occs@;
                occs.push(Occurrence { start: p, end: q + 1 });
                proof {
                    assert(occs_view(occs@) =~= occs_view(before) + seq![(p as int, q + 1 as int)]);
                    assert(scan_from(s, p as int) == seq![(p as int, q + 1 as int)] + scan_from(
                        s,
                        q + 1 as int,
                    ));
                    assert(scan_from(s, 0) =~= occs_view(occs@) + scan_from(s, q + 1 as int));
                }
                p = q + 1;
            } else {
                assert(close_from(s, q as int) is None);
                assert(match_end_at(s, p as int) is None);
                assert(scan_from(s, p as int) == scan_from(s, p + 1 as int));
                p = p + 1;
            }
        } else {
            assert(match_end_at(s, p as int) is None);
            assert(scan_from(s, p as int) == scan_from(s, p + 1 as int));
            p = p + 1;
        }
    }
    proof {
        assert(scan_from(s, p as int) == Seq::<(int, int)>::empty());
        assert(occs_view(occs@) + Seq::<(int, int)>::empty() =~= occs_view(occs@));
    }
    occs
}

} // verus!
