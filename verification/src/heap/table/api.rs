//! Reading, writing, walking and measuring a table.
use vstd::prelude::*;

use super::key::{is_normal, key_view, normalize, normalized, InvalidKey, KeyError, KeyView};
use super::resize::lemma_array_store;
use super::store::{in_array_part, keys_ok, lemma_walk_same, nodes_ok, used, valid_key, walk, Node, Resume, Table};
use crate::heap::handle::TableRef;
use crate::heap::string::{lemma_table_ok, Heap};
use crate::value::Value;

verus! {

/// The table's entries in the order a walk visits them: the array part's slots, keyed by their
/// integers, then the node part's nodes.
pub open spec fn slots(array: Seq<Value>, nodes: Seq<Node>) -> Seq<(Value, Value)> {
    Seq::new(
        array.len() + nodes.len(),
        |i: int|
            if i < array.len() {
                (Value::Int((i + 1) as i64), array[i])
            } else {
                (nodes[i - array.len()].key, nodes[i - array.len()].value)
            },
    )
}

/// The first entry at or after position `p` that holds something.
pub open spec fn first_live(s: Seq<(Value, Value)>, p: int) -> Option<(Value, Value)>
    decreases s.len() - p,
{
    if p >= s.len() {
        None
    } else if s[p].1 != Value::Nil {
        Some(s[p])
    } else {
        first_live(s, p + 1)
    }
}

/// The entries at or after position `p` that hold something, in order.
pub open spec fn live_from(s: Seq<(Value, Value)>, p: int) -> Seq<(Value, Value)>
    decreases s.len() - p,
{
    if p < 0 || p >= s.len() {
        Seq::empty()
    } else if s[p].1 != Value::Nil {
        seq![s[p]] + live_from(s, p + 1)
    } else {
        live_from(s, p + 1)
    }
}

impl Heap {
    /// What reading `key` from table `t` gives: `nil` for a value that cannot be a key.
    pub open spec fn table_read(&self, t: int, key: Value) -> Value {
        match normalized(key) {
            Ok(k) => self.table_get_spec(t, key_view(k, self.strings())),
            Err(_) => Value::Nil,
        }
    }

    /// `self` is `before` with `value` written into table `t` at `key`: the same objects,
    /// every other table as it was, and table `t` changed at that key alone.
    pub open spec fn table_written(&self, before: &Heap, t: int, key: Value, value: Value) -> bool {
        &&& normalized(key) is Ok
        &&& self.strings() == before.strings()
        &&& self.kinds() == before.kinds()
        &&& forall|i: int, k: KeyView|
            #![trigger self.table_get_spec(i, k)]
            before.is_table(i) && i != t ==> self.table_get_spec(i, k) == before.table_get_spec(i, k)
        &&& forall|k: KeyView| #[trigger]
            self.table_get_spec(t, k) == if k == key_view(normalized(key)->Ok_0, before.strings()) {
                value
            } else {
                before.table_get_spec(t, k)
            }
    }

    /// The keys table `t` holds something at.
    pub open spec fn table_keys(&self, t: int) -> Set<KeyView> {
        Set::new(|k: KeyView| self.table_get_spec(t, k) != Value::Nil)
    }

    /// `n` is a border of table `t`: 0 or an integer key that holds something, followed by one
    /// that holds nothing (or by none at all, past the largest integer).
    pub open spec fn is_border(&self, t: int, n: i64) -> bool {
        &&& n >= 0
        &&& n == 0 || self.table_get_spec(t, KeyView::Int(n)) != Value::Nil
        &&& n == i64::MAX || self.table_get_spec(t, KeyView::Int((n + 1) as i64)) == Value::Nil
    }

    /// Where a walk of table `t` goes on after `key`: from the start for `nil`, past the key's
    /// slot for a key the table has a slot for, and nowhere for any other key.
    pub closed spec fn table_resume(&self, t: int, key: Value) -> Option<int> {
        let body = self.table_at(t);
        let nodes = body.nodes@;
        let strs = self.strings();
        if key == Value::Nil {
            Some(0)
        } else if key matches Value::Int(n) && 1 <= n <= body.array@.len() {
            Some(key->Int_0 as int)
        } else if exists|j: int| 0 <= j < nodes.len() && used(nodes, j) && key_view(nodes[j].key, strs) == key_view(key, strs) {
            Some(
                body.array@.len() + (choose|j: int|
                    0 <= j < nodes.len() && used(nodes, j) && key_view(nodes[j].key, strs) == key_view(key, strs)) + 1,
            )
        } else {
            None
        }
    }

    /// The first entry of table `t`, in walk order, at or after position `p`.
    pub closed spec fn table_entry_from(&self, t: int, p: int) -> Option<(Value, Value)> {
        first_live(slots(self.table_at(t).array@, self.table_at(t).nodes@), p)
    }

    /// The entries of table `t` in the order a walk with `next` visits them.
    pub closed spec fn table_walk(&self, t: int) -> Seq<(Value, Value)> {
        live_from(slots(self.table_at(t).array@, self.table_at(t).nodes@), 0)
    }

    /// What `next` answers for table `t` after `key`.
    pub open spec fn next_of(&self, t: int, key: Value) -> Result<Option<(Value, Value)>, InvalidKey> {
        match self.table_resume(t, key) {
            Some(p) => Ok(self.table_entry_from(t, p)),
            None => Err(InvalidKey),
        }
    }
}

/// A node's key holds what the node holds.
proof fn lemma_lookup_node(t: Table, strs: Seq<Seq<u8>>, kinds: Seq<bool>, index: int)
    requires
        t.ok(strs, kinds),
        0 <= index < t.nodes@.len(),
        used(t.nodes@, index),
    ensures
        t.get(strs, key_view(t.nodes@[index].key, strs)) == t.nodes@[index].value,
        !in_array_part(key_view(t.nodes@[index].key, strs), t.array@.len() as int),
        is_normal(t.nodes@[index].key),
{
    let nodes = t.nodes@;
    let k = key_view(nodes[index].key, strs);
    let c = choose|j: int| 0 <= j < nodes.len() && used(nodes, j) && key_view(nodes[j].key, strs) == k;
    if c != index {
        assert(key_view(nodes[c].key, strs) != key_view(nodes[index].key, strs));
    }
}

/// Changing the value a node holds keeps the table well formed, and changes what it holds at
/// that node's key alone.
#[verifier::rlimit(40)]
proof fn lemma_node_store(prev: Table, after: Table, strs: Seq<Seq<u8>>, kinds: Seq<bool>, index: int, value: Value)
    requires
        prev.ok(strs, kinds),
        0 <= index < prev.nodes@.len(),
        used(prev.nodes@, index),
        after.nodes@ == prev.nodes@.update(index, Node { value, ..prev.nodes@[index] }),
        after.array@ == prev.array@,
        after.free == prev.free,
        after.log == prev.log,
        after.homes == prev.homes,
        after.ranks == prev.ranks,
    ensures
        after.ok(strs, kinds),
        forall|k: KeyView| #[trigger] after.get(strs, k) == if k == key_view(prev.nodes@[index].key, strs) {
            value
        } else {
            prev.get(strs, k)
        },
{
    let nodes = prev.nodes@;
    let nodes2 = after.nodes@;
    let n = nodes.len() as int;
    assert forall|j: int| 0 <= j < n implies nodes2[j].key == nodes[j].key && nodes2[j].next == nodes[j].next by {}
    assert forall|h: int, r: nat| 0 <= h < n implies #[trigger] walk(nodes2, h, r) == walk(nodes, h, r) by {
        lemma_walk_same(nodes, nodes2, h, r);
    }
    assert(nodes_ok(nodes2, after.free as int, after.log@, after.homes@, after.ranks@)) by {
        assert forall|j: int| 0 <= j < n && used(nodes2, j) implies walk(nodes2, after.homes@[j], after.ranks@[j]) == Some(j) by {
            assert(walk(nodes2, prev.homes@[j], prev.ranks@[j]) == walk(nodes, prev.homes@[j], prev.ranks@[j]));
        }
    }
    assert(keys_ok(after.array@, nodes2, after.homes@, strs, kinds));
    let kv = key_view(nodes[index].key, strs);
    assert forall|k: KeyView| #[trigger] after.get(strs, k) == if k == kv {
        value
    } else {
        prev.get(strs, k)
    } by {
        if !in_array_part(k, prev.array@.len() as int) {
            if exists|j: int| 0 <= j < n && used(nodes, j) && key_view(nodes[j].key, strs) == k {
                let c0 = choose|j: int| 0 <= j < n && used(nodes, j) && key_view(nodes[j].key, strs) == k;
                assert(used(nodes2, c0) && key_view(nodes2[c0].key, strs) == k);
                let c = choose|j: int| 0 <= j < n && used(nodes2, j) && key_view(nodes2[j].key, strs) == k;
                if c != c0 {
                    assert(key_view(nodes[c].key, strs) != key_view(nodes[c0].key, strs));
                }
                if k == kv && c != index {
                    assert(key_view(nodes[c].key, strs) != key_view(nodes[index].key, strs));
                }
            }
        }
    }
}

impl Table {
    /// A border inside the array part, when the array part ends on an empty slot.
    pub(crate) fn array_border(&self) -> (border: Option<i64>)
        requires
            self.array@.len() < i64::MAX,
        ensures
            match border {
                Some(b) => 0 <= b < self.array@.len() && (b == 0 || self.array@[b - 1] != Value::Nil) && self.array@[b as int]
                    == Value::Nil,
                None => self.array@.len() == 0 || self.array@[self.array@.len() - 1] != Value::Nil,
            },
    {
        let len = self.array.len();
        if len == 0 || !matches!(self.array[len - 1], Value::Nil) {
            return None;
        }
        let mut low: usize = 0;
        let mut high: usize = len;
        while high - low > 1
            invariant
                len == self.array@.len(),
                len < i64::MAX,
                low < high <= len,
                low == 0 || self.array@[low - 1] != Value::Nil,
                self.array@[high - 1] == Value::Nil,
            decreases high - low,
        {
            let middle = low + (high - low) / 2;
            if matches!(self.array[middle - 1], Value::Nil) {
                high = middle;
            } else {
                low = middle;
            }
        }
        Some(low as i64)
    }

    /// The first entry that holds something at or after a resume point.
    pub(crate) fn entry_from(&self, resume: Resume) -> (entry: Option<(Value, Value)>)
        requires
            self.array@.len() < i64::MAX,
            match resume {
                Resume::Array(start) => start <= self.array@.len(),
                Resume::Node(start) => start <= self.nodes@.len(),
            },
        ensures
            entry == first_live(
                slots(self.array@, self.nodes@),
                match resume {
                    Resume::Array(start) => start as int,
                    Resume::Node(start) => self.array@.len() + start,
                },
            ),
    {
        let ghost s = slots(self.array@, self.nodes@);
        let ghost p0 = match resume {
            Resume::Array(start) => start as int,
            Resume::Node(start) => self.array@.len() + start,
        };
        let node_start = match resume {
            Resume::Array(start) => {
                let mut index = start;
                while index < self.array.len()
                    invariant
                        s == slots(self.array@, self.nodes@),
                        s.len() == self.array@.len() + self.nodes@.len(),
                        self.array@.len() < i64::MAX,
                        resume == Resume::Array(start),
                        p0 == start,
                        start <= index <= self.array@.len(),
                        first_live(s, p0) == first_live(s, index as int),
                    decreases self.array@.len() - index,
                {
                    if !matches!(self.array[index], Value::Nil) {
                        proof {
                            assert(s[index as int] == (Value::Int((index + 1) as i64), self.array@[index as int]));
                            assert(first_live(s, index as int) == Some(s[index as int]));
                        }
                        return Some((Value::Int(index as i64 + 1), self.array[index]));
                    }
                    index += 1;
                }
                0
            },
            Resume::Node(start) => start,
        };
        let mut at = node_start;
        proof {
            assert(first_live(s, p0) == first_live(s, self.array@.len() + at));
        }
        while at < self.nodes.len()
            invariant
                s == slots(self.array@, self.nodes@),
                s.len() == self.array@.len() + self.nodes@.len(),
                p0 == match resume {
                    Resume::Array(start) => start as int,
                    Resume::Node(start) => self.array@.len() + start,
                },
                at <= self.nodes@.len(),
                first_live(s, p0) == first_live(s, self.array@.len() + at),
            decreases self.nodes@.len() - at,
        {
            let node = self.nodes[at];
            if !matches!(node.value, Value::Nil) {
                proof {
                    assert(s[self.array@.len() + at] == (node.key, node.value));
                    assert(first_live(s, self.array@.len() + at) == Some(s[self.array@.len() + at]));
                }
                return Some((node.key, node.value));
            }
            at += 1;
        }
        None
    }
}

impl Heap {
    /// Whether table `body` holds something at an integer key.
    fn has_integer(&self, body: &Table, key: i64) -> (has: bool)
        requires
            self.wf(),
            body.ok(self.strings(), self.kinds()),
        ensures
            has == (body.get(self.strings(), KeyView::Int(key)) != Value::Nil),
    {
        if body.in_array(key) {
            return !matches!(body.array_get(Value::Int(key)), Some(Value::Nil) | None);
        }
        match self.find_node(body, Value::Int(key)) {
            Some(index) => {
                proof {
                    lemma_lookup_node(*body, self.strings(), self.kinds(), index as int);
                }
                !matches!(body.node_value(index), Value::Nil)
            },
            None => false,
        }
    }

    /// Writes into a table body that is out of the heap for the while.
    fn set_in(&self, body: &mut Table, key: Value, value: Value)
        requires
            self.wf(),
            old(body).ok(self.strings(), self.kinds()),
            is_normal(key),
            valid_key(key, self.strings(), self.kinds()),
            old(body).held(self.strings()).len() < 0x3fff_ffff,
        ensures
            final(body).ok(self.strings(), self.kinds()),
            forall|k: KeyView| #[trigger] final(body).get(self.strings(), k) == if k == key_view(key, self.strings()) {
                value
            } else {
                old(body).get(self.strings(), k)
            },
    {
        let ghost prev = *body;
        if body.array_set(key, value) {
            proof {
                lemma_array_store(prev, *body, self.strings(), self.kinds(), key, value);
            }
            return;
        }
        if let Some(index) = self.find_node(body, key) {
            body.set_node_value(index, value);
            proof {
                lemma_node_store(prev, *body, self.strings(), self.kinds(), index as int, value);
            }
            return;
        }
        // Erasing a key the table never had must not make a node for it.
        if matches!(value, Value::Nil) {
            return;
        }
        proof {
            assert(body.held(self.strings()) =~= prev.held(self.strings()));
        }
        self.insert_new(body, key, value);
    }

    /// Puts a key the table does not hold into the node part, rebuilding the table when there
    /// is no room for it.
    fn insert_new(&self, body: &mut Table, key: Value, value: Value)
        requires
            self.wf(),
            old(body).ok(self.strings(), self.kinds()),
            is_normal(key),
            valid_key(key, self.strings(), self.kinds()),
            value != Value::Nil,
            !in_array_part(key_view(key, self.strings()), old(body).array@.len() as int),
            forall|j: int|
                0 <= j < old(body).nodes@.len() && used(old(body).nodes@, j) ==> key_view(
                    #[trigger] old(body).nodes@[j].key,
                    self.strings(),
                ) != key_view(key, self.strings()),
            old(body).held(self.strings()).len() < 0x3fff_ffff,
        ensures
            final(body).ok(self.strings(), self.kinds()),
            forall|k: KeyView| #[trigger] final(body).get(self.strings(), k) == if k == key_view(key, self.strings()) {
                value
            } else {
                old(body).get(self.strings(), k)
            },
    {
        let ghost prev = *body;
        if !self.try_insert(body, key, value) {
            proof {
                assert(body.held(self.strings()) =~= prev.held(self.strings()));
            }
            self.refresh(body, key, value);
        }
    }

    /// The value at a key, or `nil`.
    pub fn table_get(&self, handle: TableRef, key: Value) -> (value: Value)
        requires
            self.wf(),
            self.is_table(handle.id() as int),
            valid_key(key, self.strings(), self.kinds()),
        ensures
            value == self.table_read(handle.id() as int, key),
    {
        let key = match normalize(key) {
            Ok(key) => key,
            Err(_) => return Value::Nil,
        };
        let body = self.table(handle);
        proof {
            lemma_table_ok(self, handle.id() as int);
        }
        if let Some(value) = body.array_get(key) {
            return value;
        }
        match self.find_node(body, key) {
            Some(index) => {
                proof {
                    lemma_lookup_node(*body, self.strings(), self.kinds(), index as int);
                }
                body.node_value(index)
            },
            None => Value::Nil,
        }
    }

    /// Puts a value at a key. Assigning `nil` erases it.
    pub fn table_set(&mut self, handle: TableRef, key: Value, value: Value) -> (result: Result<(), KeyError>)
        requires
            old(self).wf(),
            old(self).is_table(handle.id() as int),
            valid_key(key, old(self).strings(), old(self).kinds()),
            old(self).table_keys(handle.id() as int).len() < 0x3fff_ffff,
        ensures
            final(self).wf(),
            match result {
                Ok(()) => final(self).table_written(old(self), handle.id() as int, key, value),
                Err(e) => normalized(key) == Err::<Value, KeyError>(e) && *final(self) == *old(self),
            },
    {
        let key = match normalize(key) {
            Ok(key) => key,
            Err(e) => return Err(e),
        };
        let ghost before = *self;
        let ghost t = handle.id() as int;
        proof {
            lemma_table_ok(self, t);
        }
        let mut body = self.take_table(handle);
        proof {
            assert(body.held(before.strings()) =~= before.table_keys(t));
        }
        self.set_in(&mut body, key, value);
        self.put_table(handle, body);
        proof {
            assert forall|i: int, k: KeyView| before.is_table(i) && i != t implies #[trigger] self.table_get_spec(i, k)
                == before.table_get_spec(i, k) by {
                assert(self.table_at(i) == before.table_at(i));
            }
        }
        Ok(())
    }

    /// The entry after a key, or `None` at the end.
    #[verifier::rlimit(30)]
    pub fn table_next(&self, handle: TableRef, key: Value) -> (result: Result<Option<(Value, Value)>, InvalidKey>)
        requires
            self.wf(),
            self.is_table(handle.id() as int),
            valid_key(key, self.strings(), self.kinds()),
        ensures
            result == self.next_of(handle.id() as int, key),
            result matches Ok(Some((k, v))) ==> v != Value::Nil && is_normal(k) && self.table_get_spec(
                handle.id() as int,
                key_view(k, self.strings()),
            ) == v,
    {
        let ghost t = handle.id() as int;
        let body = self.table(handle);
        proof {
            lemma_table_ok(self, t);
        }
        let ghost mut p: int = 0;
        // The array slot to go on from, for `nil` and for the integers of the array part.
        let array_start = match key {
            Value::Nil => Some(0),
            Value::Int(number) => {
                if body.in_array(number) {
                    let len = body.array_len();
                    assert(number <= len);
                    Some(number as usize)
                } else {
                    None
                }
            },
            _ => None,
        };
        let resume = match array_start {
            Some(start) => {
                proof {
                    p = start as int;
                    assert(self.table_resume(t, key) == Some(p));
                }
                Resume::Array(start)
            },
            None => match self.find_node(body, key) {
                Some(index) => {
                    proof {
                        let nodes = body.nodes@;
                        let strs = self.strings();
                        let c = choose|j: int| 0 <= j < nodes.len() && used(nodes, j) && key_view(nodes[j].key, strs) == key_view(key, strs);
                        if c != index {
                            assert(key_view(nodes[c].key, strs) != key_view(nodes[index as int].key, strs));
                        }
                        p = body.array@.len() + index + 1;
                        assert(self.table_resume(t, key) == Some(p));
                    }
                    Resume::Node(index + 1)
                },
                None => return Err(InvalidKey),
            },
        };
        assert(p == match resume {
            Resume::Array(start) => start as int,
            Resume::Node(start) => body.array@.len() + start,
        });
        assert(self.table_resume(t, key) == Some(p));
        let entry = body.entry_from(resume);
        assert(entry == self.table_entry_from(t, p));
        proof {
            lemma_walk_entry(*body, self.strings(), self.kinds(), p);
        }
        Ok(entry)
    }

    /// A border of the table.
    pub fn table_length(&self, handle: TableRef) -> (length: i64)
        requires
            self.wf(),
            self.is_table(handle.id() as int),
        ensures
            self.is_border(handle.id() as int, length),
    {
        let body = self.table(handle);
        proof {
            lemma_table_ok(self, handle.id() as int);
        }
        if let Some(border) = body.array_border() {
            proof {
                assert(body.get(self.strings(), KeyView::Int((border + 1) as i64)) == body.array@[border as int]);
            }
            return border;
        }
        let mut filled = body.array_len() as i64;
        if !self.has_integer(body, filled + 1) {
            return filled;
        }
        // Double until the far end is empty, then halve the gap.
        let mut empty = filled + 1;
        while self.has_integer(body, empty)
            invariant
                self.wf(),
                body.ok(self.strings(), self.kinds()),
                *body == self.table_at(handle.id() as int),
                0 <= filled < empty,
                filled == 0 || body.get(self.strings(), KeyView::Int(filled)) != Value::Nil,
            decreases i64::MAX - empty,
        {
            filled = empty;
            let doubled = match empty.checked_mul(2) {
                Some(doubled) => doubled,
                None => {
                    // No room to double: walk up one key at a time.
                    while filled < i64::MAX && self.has_integer(body, filled + 1)
                        invariant
                            self.wf(),
                            body.ok(self.strings(), self.kinds()),
                            *body == self.table_at(handle.id() as int),
                            0 < filled,
                            body.get(self.strings(), KeyView::Int(filled)) != Value::Nil,
                        decreases i64::MAX - filled,
                    {
                        filled += 1;
                    }
                    return filled;
                },
            };
            empty = doubled;
        }
        while empty - filled > 1
            invariant
                self.wf(),
                body.ok(self.strings(), self.kinds()),
                *body == self.table_at(handle.id() as int),
                0 <= filled < empty,
                filled == 0 || body.get(self.strings(), KeyView::Int(filled)) != Value::Nil,
                body.get(self.strings(), KeyView::Int(empty)) == Value::Nil,
            decreases empty - filled,
        {
            let middle = filled + (empty - filled) / 2;
            if self.has_integer(body, middle) {
                filled = middle;
            } else {
                empty = middle;
            }
        }
        filled
    }
}

/// The entry a walk finds holds something, and is what the table holds at its key.
proof fn lemma_walk_entry(t: Table, strs: Seq<Seq<u8>>, kinds: Seq<bool>, p: int)
    requires
        t.ok(strs, kinds),
        0 <= p,
    ensures
        first_live(slots(t.array@, t.nodes@), p) matches Some((k, v)) ==> v != Value::Nil && is_normal(k) && t.get(
            strs,
            key_view(k, strs),
        ) == v,
    decreases slots(t.array@, t.nodes@).len() - p,
{
    let s = slots(t.array@, t.nodes@);
    if p < s.len() {
        if s[p].1 != Value::Nil {
            if p >= t.array@.len() {
                let j = p - t.array@.len();
                assert(used(t.nodes@, j));
                lemma_lookup_node(t, strs, kinds, j);
            }
        } else {
            lemma_walk_entry(t, strs, kinds, p + 1);
        }
    }
}

/// Reading a table back after a write: the key written gives the value written, any other
/// key gives what it gave before, and the table then holds something at the keys it held
/// before, with the key written added, or taken away when the value written is `nil`.
pub proof fn lemma_read_after_write(before: &Heap, after: &Heap, t: int, key: Value, value: Value, other: Value)
    requires
        after.table_written(before, t, key, value),
    ensures
        after.table_read(t, key) == value,
        (normalized(other) is Ok && key_view(normalized(other)->Ok_0, before.strings()) == key_view(
            normalized(key)->Ok_0,
            before.strings(),
        )) ==> after.table_read(t, other) == value,
        !(normalized(other) is Ok && key_view(normalized(other)->Ok_0, before.strings()) == key_view(
            normalized(key)->Ok_0,
            before.strings(),
        )) ==> after.table_read(t, other) == before.table_read(t, other),
        after.table_keys(t) == if value == Value::Nil {
            before.table_keys(t).remove(key_view(normalized(key)->Ok_0, before.strings()))
        } else {
            before.table_keys(t).insert(key_view(normalized(key)->Ok_0, before.strings()))
        },
{
    let kv = key_view(normalized(key)->Ok_0, before.strings());
    assert(after.table_get_spec(t, kv) == value);
    if normalized(other) is Ok {
        let ov = key_view(normalized(other)->Ok_0, before.strings());
        assert(after.table_get_spec(t, ov) == if ov == kv { value } else { before.table_get_spec(t, ov) });
    }
    assert forall|k: KeyView| after.table_keys(t).contains(k) == (if value == Value::Nil {
        before.table_keys(t).remove(kv)
    } else {
        before.table_keys(t).insert(kv)
    }).contains(k) by {
        assert(after.table_get_spec(t, k) == if k == kv { value } else { before.table_get_spec(t, k) });
    }
    assert(after.table_keys(t) =~= if value == Value::Nil {
        before.table_keys(t).remove(kv)
    } else {
        before.table_keys(t).insert(kv)
    });
}

} // verus!

verus! {

/// The first entry that holds something is the first of those that do.
proof fn lemma_first_live(s: Seq<(Value, Value)>, p: int)
    requires
        0 <= p,
    ensures
        first_live(s, p) == if live_from(s, p).len() == 0 {
            None
        } else {
            Some(live_from(s, p)[0])
        },
    decreases s.len() - p,
{
    if p < s.len() && s[p].1 == Value::Nil {
        lemma_first_live(s, p + 1);
    }
}

/// Where the `i`-th entry that holds something sits, and that the ones after it are those past
/// its position.
proof fn lemma_live_position(s: Seq<(Value, Value)>, p: int, i: int) -> (q: int)
    requires
        0 <= p,
        0 <= i < live_from(s, p).len(),
    ensures
        p <= q < s.len(),
        s[q] == live_from(s, p)[i],
        s[q].1 != Value::Nil,
        live_from(s, q + 1) == live_from(s, p).skip(i + 1),
    decreases s.len() - p,
{
    if s[p].1 != Value::Nil {
        if i == 0 {
            assert(live_from(s, p).skip(1) =~= live_from(s, p + 1));
            p
        } else {
            let q = lemma_live_position(s, p + 1, i - 1);
            assert(live_from(s, p + 1).skip(i) =~= live_from(s, p).skip(i + 1));
            q
        }
    } else {
        lemma_live_position(s, p + 1, i)
    }
}

/// Every entry at or after `p` that holds something is among the live ones from `p`.
proof fn lemma_live_covers(s: Seq<(Value, Value)>, p: int, q: int)
    requires
        0 <= p <= q < s.len(),
        s[q].1 != Value::Nil,
    ensures
        exists|i: int| #![trigger live_from(s, p)[i]] 0 <= i < live_from(s, p).len() && live_from(s, p)[i] == s[q],
    decreases q - p,
{
    if p == q {
        assert(live_from(s, p)[0] == s[q]);
    } else {
        lemma_live_covers(s, p + 1, q);
        let i = choose|i: int| #![trigger live_from(s, p + 1)[i]] 0 <= i < live_from(s, p + 1).len() && live_from(s, p + 1)[i] == s[q];
        if s[p].1 != Value::Nil {
            assert(live_from(s, p)[i + 1] == s[q]);
        } else {
            assert(live_from(s, p)[i] == s[q]);
        }
    }
}

/// Two slots that hold something hold it at different keys.
proof fn lemma_slot_keys_differ(t: Table, strs: Seq<Seq<u8>>, kinds: Seq<bool>, q1: int, q2: int)
    requires
        t.ok(strs, kinds),
        0 <= q1 < slots(t.array@, t.nodes@).len(),
        0 <= q2 < slots(t.array@, t.nodes@).len(),
        q1 != q2,
        slots(t.array@, t.nodes@)[q1].1 != Value::Nil,
        slots(t.array@, t.nodes@)[q2].1 != Value::Nil,
    ensures
        key_view(slots(t.array@, t.nodes@)[q1].0, strs) != key_view(slots(t.array@, t.nodes@)[q2].0, strs),
{
    let s = slots(t.array@, t.nodes@);
    let n = t.array@.len() as int;
    if q1 >= n {
        assert(used(t.nodes@, q1 - n));
    }
    if q2 >= n {
        assert(used(t.nodes@, q2 - n));
    }
}

/// The slot at position `q` holds something: `next` after its key goes on past it.
proof fn lemma_resume_after_slot(heap: &Heap, t: int, q: int)
    requires
        heap.wf(),
        heap.is_table(t),
        0 <= q < slots(heap.table_at(t).array@, heap.table_at(t).nodes@).len(),
        slots(heap.table_at(t).array@, heap.table_at(t).nodes@)[q].1 != Value::Nil,
    ensures
        heap.table_resume(t, slots(heap.table_at(t).array@, heap.table_at(t).nodes@)[q].0) == Some(q + 1),
        heap.table_get_spec(t, key_view(slots(heap.table_at(t).array@, heap.table_at(t).nodes@)[q].0, heap.strings()))
            == slots(heap.table_at(t).array@, heap.table_at(t).nodes@)[q].1,
{
    lemma_table_ok(heap, t);
    let body = heap.table_at(t);
    let strs = heap.strings();
    let nodes = body.nodes@;
    let n = body.array@.len() as int;
    if q >= n {
        let j = q - n;
        assert(used(nodes, j));
        lemma_lookup_node(body, strs, heap.kinds(), j);
        let key = nodes[j].key;
        let c = choose|c: int| 0 <= c < nodes.len() && used(nodes, c) && key_view(nodes[c].key, strs) == key_view(key, strs);
        if c != j {
            assert(key_view(nodes[c].key, strs) != key_view(nodes[j].key, strs));
        }
    }
}

/// A walk with `next` from `nil` visits every key table `t` holds exactly once, with what the
/// table holds there, and then ends: `next` after `nil` gives the first entry, and `next`
/// after the key of each entry gives the one after it, or nothing after the last.
pub proof fn lemma_next_walks_every_key(heap: &Heap, t: int)
    requires
        heap.wf(),
        heap.is_table(t),
    ensures
        heap.next_of(t, Value::Nil) == Ok::<Option<(Value, Value)>, InvalidKey>(
            if heap.table_walk(t).len() == 0 {
                None
            } else {
                Some(heap.table_walk(t)[0])
            },
        ),
        forall|i: int|
            0 <= i < heap.table_walk(t).len() ==> #[trigger] heap.next_of(t, heap.table_walk(t)[i].0) == Ok::<
                Option<(Value, Value)>,
                InvalidKey,
            >(
                if i + 1 < heap.table_walk(t).len() {
                    Some(heap.table_walk(t)[i + 1])
                } else {
                    None
                },
            ),
        forall|i: int|
            0 <= i < heap.table_walk(t).len() ==> #[trigger] heap.table_walk(t)[i].1 != Value::Nil
                && heap.table_get_spec(t, key_view(heap.table_walk(t)[i].0, heap.strings())) == heap.table_walk(t)[i].1,
        forall|i: int, j: int|
            0 <= i < j < heap.table_walk(t).len() ==> key_view(#[trigger] heap.table_walk(t)[i].0, heap.strings())
                != key_view(#[trigger] heap.table_walk(t)[j].0, heap.strings()),
        forall|k: KeyView|
            #[trigger] heap.table_keys(t).contains(k) ==> exists|i: int|
                #![trigger heap.table_walk(t)[i]]
                0 <= i < heap.table_walk(t).len() && key_view(heap.table_walk(t)[i].0, heap.strings()) == k,
{
    lemma_table_ok(heap, t);
    let body = heap.table_at(t);
    let strs = heap.strings();
    let s = slots(body.array@, body.nodes@);
    let w = heap.table_walk(t);
    assert(w == live_from(s, 0));
    lemma_first_live(s, 0);
    assert forall|i: int| 0 <= i < w.len() implies #[trigger] heap.next_of(t, w[i].0) == Ok::<
        Option<(Value, Value)>,
        InvalidKey,
    >(if i + 1 < w.len() { Some(w[i + 1]) } else { None }) by {
        let q = lemma_live_position(s, 0, i);
        lemma_resume_after_slot(heap, t, q);
        lemma_first_live(s, q + 1);
        if i + 1 < w.len() {
            assert(w.skip(i + 1)[0] == w[i + 1]);
        }
    }
    assert forall|i: int| 0 <= i < w.len() implies #[trigger] w[i].1 != Value::Nil && heap.table_get_spec(
        t,
        key_view(w[i].0, strs),
    ) == w[i].1 by {
        let q = lemma_live_position(s, 0, i);
        lemma_resume_after_slot(heap, t, q);
    }
    assert forall|i: int, j: int| 0 <= i < j < w.len() implies key_view(#[trigger] w[i].0, strs) != key_view(
        #[trigger] w[j].0,
        strs,
    ) by {
        let qi = lemma_live_position(s, 0, i);
        assert(w.skip(i + 1)[j - i - 1] == w[j]);
        let qj = lemma_live_position(s, qi + 1, j - i - 1);
        lemma_slot_keys_differ(body, strs, heap.kinds(), qi, qj);
    }
    assert forall|k: KeyView| #[trigger] heap.table_keys(t).contains(k) implies exists|i: int|
        #![trigger w[i]]
        0 <= i < w.len() && key_view(w[i].0, strs) == k by {
        let n = body.array@.len() as int;
        let nodes = body.nodes@;
        assert(heap.table_get_spec(t, k) != Value::Nil);
        if in_array_part(k, n) {
            let q = k->Int_0 - 1;
            assert(s[q].0 == Value::Int(k->Int_0));
            lemma_live_covers(s, 0, q);
        } else {
            let j = choose|j: int| 0 <= j < nodes.len() && used(nodes, j) && key_view(nodes[j].key, strs) == k;
            lemma_lookup_node(body, strs, heap.kinds(), j);
            lemma_live_covers(s, 0, n + j);
        }
    }
}

} // verus!
