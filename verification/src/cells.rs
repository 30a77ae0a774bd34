//! The upvalues still pointing into the stack, ordered by slot: every closure that captures a
//! slot shares the one cell for it, and leaving a frame closes the cells from its base up.
use vstd::prelude::*;

use crate::heap::UpvalRef;

verus! {

/// The slots strictly increase along the list.
pub open spec fn ascending(open: Seq<(u32, UpvalRef)>) -> bool {
    forall|i: int, j: int| 0 <= i < j < open.len() ==> #[trigger] open[i].0 < #[trigger] open[j].0
}

/// The cell open for `slot`, if there is one.
pub open spec fn cell_of(open: Seq<(u32, UpvalRef)>, slot: u32) -> Option<UpvalRef> {
    if exists|i: int| 0 <= i < open.len() && open[i].0 == slot {
        Some(open[choose|i: int| 0 <= i < open.len() && open[i].0 == slot].1)
    } else {
        None
    }
}

/// The open upvalue cells, lowest slot first.
pub struct OpenCells {
    open: Vec<(u32, UpvalRef)>,
}

impl OpenCells {
    pub closed spec fn view(&self) -> Seq<(u32, UpvalRef)> {
        self.open@
    }

    /// The list is ordered by slot, each slot once.
    pub open spec fn wf(&self) -> bool {
        ascending(self.view())
    }

    pub fn new() -> (cells: OpenCells)
        ensures
            cells.view() == Seq::<(u32, UpvalRef)>::empty(),
            cells.wf(),
    {
        OpenCells { open: Vec::new() }
    }

    /// The cell open for `slot`, or where in the list a new one for it goes.
    pub fn find(&self, slot: u32) -> (found: Result<UpvalRef, usize>)
        requires
            self.wf(),
        ensures
            found matches Ok(cell) ==> cell_of(self.view(), slot) == Some(cell),
            found matches Err(at) ==> ({
                &&& cell_of(self.view(), slot) is None
                &&& at <= self.view().len()
                &&& forall|i: int| 0 <= i < at ==> #[trigger] self.view()[i].0 < slot
                &&& forall|i: int| at <= i < self.view().len() ==> #[trigger] self.view()[i].0 > slot
            }),
    {
        let mut low: usize = 0;
        let mut high: usize = self.open.len();
        while low < high
            invariant
                ascending(self.open@),
                low <= high <= self.open@.len(),
                forall|i: int| 0 <= i < low ==> #[trigger] self.open@[i].0 < slot,
                forall|i: int| high <= i < self.open@.len() ==> #[trigger] self.open@[i].0 > slot,
            decreases high - low,
        {
            let middle = low + (high - low) / 2;
            let held = self.open[middle].0;
            if held == slot {
                let cell = self.open[middle].1;
                proof {
                    let c = choose|i: int| 0 <= i < self.open@.len() && self.open@[i].0 == slot;
                    if c != middle {
                        if c < middle {
                            assert(self.open@[c].0 < self.open@[middle as int].0);
                        } else {
                            assert(self.open@[middle as int].0 < self.open@[c].0);
                        }
                    }
                }
                return Ok(cell);
            } else if held < slot {
                proof {
                    assert forall|i: int| 0 <= i < middle + 1 implies #[trigger] self.open@[i].0 < slot by {
                        if i < middle {
                            assert(self.open@[i].0 < self.open@[middle as int].0);
                        }
                    }
                }
                low = middle + 1;
            } else {
                proof {
                    assert forall|i: int| middle <= i < self.open@.len() implies #[trigger] self.open@[i].0 > slot by {
                        if i > middle {
                            assert(self.open@[middle as int].0 < self.open@[i].0);
                        }
                    }
                }
                high = middle;
            }
        }
        proof {
            if exists|i: int| 0 <= i < self.open@.len() && self.open@[i].0 == slot {
                let c = choose|i: int| 0 <= i < self.open@.len() && self.open@[i].0 == slot;
                if c < low {
                    assert(self.open@[c].0 < slot);
                } else {
                    assert(self.open@[c].0 > slot);
                }
            }
        }
        Err(low)
    }

    /// Opens `cell` for `slot` at the place `find` answered: from then on it is the cell for
    /// that slot, and every other slot keeps its own.
    pub fn insert(&mut self, at: usize, slot: u32, cell: UpvalRef)
        requires
            old(self).wf(),
            at <= old(self).view().len(),
            forall|i: int| 0 <= i < at ==> #[trigger] old(self).view()[i].0 < slot,
            forall|i: int| at <= i < old(self).view().len() ==> #[trigger] old(self).view()[i].0 > slot,
        ensures
            final(self).wf(),
            final(self).view() == old(self).view().insert(at as int, (slot, cell)),
            cell_of(final(self).view(), slot) == Some(cell),
            forall|other: u32| other != slot ==> #[trigger] cell_of(final(self).view(), other) == cell_of(old(self).view(), other),
    {
        let ghost before = self.open@;
        self.open.insert(at, (slot, cell));
        let ghost after = self.open@;
        proof {
            assert(after[at as int] == (slot, cell));
            assert forall|i: int, j: int| 0 <= i < j < after.len() implies #[trigger] after[i].0 < #[trigger] after[j].0 by {
                if j < at {
                    assert(after[i] == before[i] && after[j] == before[j]);
                } else if i > at {
                    assert(after[i] == before[i - 1] && after[j] == before[j - 1]);
                } else if i == at {
                    assert(after[j] == before[j - 1]);
                } else if j == at {
                    assert(after[i] == before[i]);
                } else {
                    assert(after[i] == before[i] && after[j] == before[j - 1]);
                }
            }
            let c = choose|i: int| 0 <= i < after.len() && after[i].0 == slot;
            if c != at {
                if c < at {
                    assert(after[c].0 < after[at as int].0);
                } else {
                    assert(after[at as int].0 < after[c].0);
                }
            }
            assert forall|other: u32| other != slot implies #[trigger] cell_of(after, other) == cell_of(before, other) by {
                if exists|i: int| 0 <= i < before.len() && before[i].0 == other {
                    let b = choose|i: int| 0 <= i < before.len() && before[i].0 == other;
                    let k = if b < at { b } else { b + 1 };
                    assert(after[k] == before[b]);
                    let a = choose|i: int| 0 <= i < after.len() && after[i].0 == other;
                    if a != k {
                        if a < k {
                            assert(after[a].0 < after[k].0);
                        } else {
                            assert(after[k].0 < after[a].0);
                        }
                    }
                }
                if exists|i: int| 0 <= i < after.len() && after[i].0 == other {
                    let a = choose|i: int| 0 <= i < after.len() && after[i].0 == other;
                    assert(a != at);
                    let b = if a < at { a } else { a - 1 };
                    assert(before[b] == after[a]);
                }
            }
        }
    }

    /// Takes out every cell at `from` or above, lowest first; the cells below stay open.
    pub fn close_from(&mut self, from: u32) -> (closed: Vec<(u32, UpvalRef)>)
        requires
            old(self).wf(),
        ensures
            final(self).wf(),
            old(self).view() == final(self).view() + closed@,
            forall|i: int| 0 <= i < final(self).view().len() ==> #[trigger] final(self).view()[i].0 < from,
            forall|i: int| 0 <= i < closed@.len() ==> #[trigger] closed@[i].0 >= from,
            forall|slot: u32| #[trigger] cell_of(final(self).view(), slot) == if slot < from {
                cell_of(old(self).view(), slot)
            } else {
                None
            },
    {
        let ghost before = self.open@;
        // The first place whose slot is `from` or above.
        let mut low: usize = 0;
        let mut high: usize = self.open.len();
        while low < high
            invariant
                ascending(self.open@),
                self.open@ == before,
                low <= high <= self.open@.len(),
                forall|i: int| 0 <= i < low ==> #[trigger] self.open@[i].0 < from,
                forall|i: int| high <= i < self.open@.len() ==> #[trigger] self.open@[i].0 >= from,
            decreases high - low,
        {
            let middle = low + (high - low) / 2;
            if self.open[middle].0 < from {
                proof {
                    assert forall|i: int| 0 <= i < middle + 1 implies #[trigger] self.open@[i].0 < from by {
                        if i < middle {
                            assert(self.open@[i].0 < self.open@[middle as int].0);
                        }
                    }
                }
                low = middle + 1;
            } else {
                proof {
                    assert forall|i: int| middle <= i < self.open@.len() implies #[trigger] self.open@[i].0 >= from by {
                        if i > middle {
                            assert(self.open@[middle as int].0 < self.open@[i].0);
                        }
                    }
                }
                high = middle;
            }
        }
        let closed = self.open.split_off(low);
        proof {
            assert(before =~= self.open@ + closed@);
            assert forall|i: int| 0 <= i < closed@.len() implies #[trigger] closed@[i].0 >= from by {
                assert(closed@[i] == before[low + i]);
            }
            assert forall|slot: u32| #[trigger] cell_of(self.open@, slot) == if slot < from {
                cell_of(before, slot)
            } else {
                None
            } by {
                if exists|i: int| 0 <= i < before.len() && before[i].0 == slot {
                    let b = choose|i: int| 0 <= i < before.len() && before[i].0 == slot;
                    if slot < from {
                        assert(b < low);
                        assert(self.open@[b] == before[b]);
                        let a = choose|i: int| 0 <= i < self.open@.len() && self.open@[i].0 == slot;
                        if a != b {
                            if a < b {
                                assert(before[a].0 < before[b].0);
                            } else {
                                assert(before[b].0 < before[a].0);
                            }
                        }
                    }
                }
                if exists|i: int| 0 <= i < self.open@.len() && self.open@[i].0 == slot {
                    let a = choose|i: int| 0 <= i < self.open@.len() && self.open@[i].0 == slot;
                    assert(before[a] == self.open@[a]);
                }
            }
        }
        closed
    }
}

} // verus!
