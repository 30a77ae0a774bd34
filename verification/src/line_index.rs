//! Turning a byte offset into a line number, once per source rather than once per token.
use vstd::prelude::*;

use crate::lexer::bytes::is_line_break;
use crate::lexer::grammar::break_end;

verus! {

/// The offsets just past every line break from `i` on; `\r\n` and `\n\r` are one break.
pub open spec fn breaks_from(s: Seq<u8>, i: int) -> Seq<int>
    decreases s.len() - i,
{
    if i < 0 || i >= s.len() {
        Seq::empty()
    } else if is_line_break(s[i]) {
        seq![break_end(s, i)] + breaks_from(s, break_end(s, i))
    } else {
        breaks_from(s, i + 1)
    }
}

/// Where each line of `s` starts.
pub open spec fn line_starts(s: Seq<u8>) -> Seq<int> {
    seq![0int] + breaks_from(s, 0)
}

/// How many of `starts` are at or before `offset`.
pub open spec fn count_at_or_before(starts: Seq<int>, offset: int) -> nat
    decreases starts.len(),
{
    if starts.len() == 0 {
        0
    } else {
        count_at_or_before(starts.drop_last(), offset) + if starts.last() <= offset {
            1nat
        } else {
            0nat
        }
    }
}

pub open spec fn strictly_increasing(v: Seq<int>) -> bool {
    forall|i: int, j: int| 0 <= i < j < v.len() ==> v[i] < v[j]
}

/// Where each line starts, so that a byte offset can be turned into a line number without every token carrying one.
#[derive(Debug)]
pub struct LineIndex {
    starts: Vec<u32>,
}

impl View for LineIndex {
    type V = Seq<int>;

    closed spec fn view(&self) -> Seq<int> {
        self.starts@.map_values(|start: u32| start as int)
    }
}

proof fn lemma_breaks_bounds(s: Seq<u8>, i: int)
    requires
        0 <= i <= s.len(),
    ensures
        forall|k: int| 0 <= k < breaks_from(s, i).len() ==> i < #[trigger] breaks_from(s, i)[k]
            <= s.len(),
        strictly_increasing(breaks_from(s, i)),
    decreases s.len() - i,
{
    if i < s.len() {
        if is_line_break(s[i]) {
            lemma_breaks_bounds(s, break_end(s, i));
        } else {
            lemma_breaks_bounds(s, i + 1);
        }
    }
}

proof fn lemma_count_sorted(starts: Seq<int>, offset: int, k: int)
    requires
        strictly_increasing(starts),
        0 <= k <= starts.len(),
        k > 0 ==> starts[k - 1] <= offset,
        k < starts.len() ==> offset < starts[k],
    ensures
        count_at_or_before(starts, offset) == k,
    decreases starts.len(),
{
    if starts.len() > 0 {
        let rest = starts.drop_last();
        if k == starts.len() {
            if k - 1 < rest.len() {
                lemma_count_sorted(rest, offset, k - 1);
            } else {
                lemma_count_sorted(rest, offset, k - 1);
            }
        } else {
            lemma_count_sorted(rest, offset, k);
        }
    }
}

impl LineIndex {
    pub closed spec fn wf(&self) -> bool {
        &&& 1 <= self@.len() <= u32::MAX
        &&& self@[0] == 0
        &&& strictly_increasing(self@)
    }

    pub fn new(source: &[u8]) -> (index: Self)
        requires
            source@.len() < u32::MAX,
        ensures
            index.wf(),
            index@ == line_starts(source@),
    {
        let ghost s = source@;
        let mut starts: Vec<u32> = Vec::new();
        starts.push(0);
        let mut at: usize = 0;
        proof {
            lemma_breaks_bounds(s, 0);
            assert(starts@.map_values(|start: u32| start as int) + breaks_from(s, 0) =~= line_starts(s));
        }

        while at < source.len()
            invariant
                s == source@,
                s.len() < u32::MAX,
                at <= s.len(),
                1 <= starts@.len() <= at + 1,
                starts@.map_values(|start: u32| start as int) + breaks_from(s, at as int)
                    == line_starts(s),
            decreases s.len() - at,
        {
            let ghost i = at as int;
            let ghost before = starts@.map_values(|start: u32| start as int);
            let byte = source[at];
            at += 1;
            if byte == 0x0a || byte == 0x0d {
                if at < source.len() && (source[at] == 0x0a || source[at] == 0x0d) && source[at]
                    != byte {
                    at += 1;
                }
                starts.push(at as u32);
                proof {
                    assert(starts@.map_values(|start: u32| start as int) =~= before.push(at as int));
                    assert(before.push(at as int) + breaks_from(s, at as int) =~= before + (seq![
                        at as int,
                    ] + breaks_from(s, at as int)));
                }
            }
        }
        let index = LineIndex { starts };
        proof {
            assert(breaks_from(s, at as int) =~= Seq::<int>::empty());
            assert(index@ =~= line_starts(s));
            assert(index@.len() == starts@.len());
            lemma_breaks_bounds(s, 0);
            assert forall|i: int, j: int| 0 <= i < j < index@.len() implies index@[i]
                < index@[j] by {
                if i > 0 {
                    assert(index@[i] == breaks_from(s, 0)[i - 1]);
                }
                assert(index@[j] == breaks_from(s, 0)[j - 1]);
            }
        }
        index
    }

    /// The 1-based line holding `offset`: how many lines start at or before it.
    pub fn line_of(&self, offset: u32) -> (line: u32)
        requires
            self.wf(),
        ensures
            line == count_at_or_before(self@, offset as int),
            1 <= line <= self@.len(),
    {
        // The last start at or before `offset`, found by halving.
        let mut low: usize = 0;
        let mut high: usize = self.starts.len();
        while low + 1 < high
            invariant
                self.wf(),
                0 <= low < high <= self@.len(),
                self@.len() == self.starts@.len(),
                self@[low as int] <= offset,
                high < self@.len() ==> offset < self@[high as int],
            decreases high - low,
        {
            let middle = low + (high - low) / 2;
            if self.starts[middle] <= offset {
                low = middle;
            } else {
                high = middle;
            }
        }
        proof {
            lemma_count_sorted(self@, offset as int, low + 1);
        }
        (low + 1) as u32
    }
}

} // verus!
