//! How a table holds what it holds: the array part, the node part, and the chains that link
//! colliding nodes.
use vstd::prelude::*;
use vstd::arithmetic::power2::pow2;

use super::key::{hash_of, is_normal, key_view, KeyView};
use crate::value::Value;

verus! {

/// One entry of the hash part.
#[derive(Debug, Clone, Copy)]
pub struct Node {
    pub key: Value,
    pub value: Value,
    /// The next node of the chain, by index: the node array moves when it grows.
    pub next: Option<u32>,
}

impl Node {
    pub fn free() -> (node: Node)
        ensures
            node.key == Value::Nil,
            node.value == Value::Nil,
            node.next is None,
    {
        Node { key: Value::Nil, value: Value::Nil, next: None }
    }
}

/// Where a walk over the entries resumes.
#[derive(Debug, Clone, Copy)]
pub enum Resume {
    /// From this index of the array part.
    Array(usize),
    /// From this node.
    Node(usize),
}

/// A table's two parts.
pub(crate) struct Table {
    pub(crate) array: Vec<Value>,
    pub(crate) nodes: Vec<Node>,
    /// Where the walk for an unused node stopped last time, counted from the end.
    pub(crate) free: usize,
    /// The power of two the node part is long, when it is not empty.
    pub(crate) log: Ghost<nat>,
    /// For each used node, the node its key hashes to.
    pub(crate) homes: Ghost<Seq<int>>,
    /// For each used node, how many links its chain takes from that home to reach it.
    pub(crate) ranks: Ghost<Seq<nat>>,
}

/// A node holds a key.
pub open spec fn used(nodes: Seq<Node>, j: int) -> bool {
    nodes[j].key != Value::Nil
}

/// Where following the links from node `s` for `i` steps ends, if the chain is that long.
pub open spec fn walk(nodes: Seq<Node>, s: int, i: nat) -> Option<int>
    decreases i,
{
    if i == 0 {
        Some(s)
    } else {
        match walk(nodes, s, (i - 1) as nat) {
            Some(x) => if 0 <= x < nodes.len() {
                match nodes[x].next {
                    Some(y) => Some(y as int),
                    None => None,
                }
            } else {
                None
            },
            None => None,
        }
    }
}

/// The node part's shape and its chains, given the home of every used node: all of it but
/// the bound on the ranks.
///
/// Free nodes hold nothing and link nowhere, and the ones past the free cursor are all used.
/// Every used node is reached from its home, its home is the head of a chain of nodes that
/// all share that home, and each link goes one rank further.
pub open spec fn chains_ok(nodes: Seq<Node>, free: int, log: nat, homes: Seq<int>, ranks: Seq<nat>) -> bool {
    let n = nodes.len() as int;
    &&& n == 0 || n == pow2(log)
    &&& n <= 0x8000_0000
    &&& 0 <= free <= n
    &&& homes.len() == n
    &&& ranks.len() == n
    &&& forall|j: int| n - free <= j < n ==> used(nodes, j)
    &&& forall|j: int| 0 <= j < n && !used(nodes, j) ==> #[trigger] nodes[j].value == Value::Nil && nodes[j].next is None
    &&& forall|j: int|
        0 <= j < n && used(nodes, j) ==> {
            let h = #[trigger] homes[j];
            &&& 0 <= h < n
            &&& used(nodes, h)
            &&& homes[h] == h
            &&& (ranks[j] == 0 <==> h == j)
            &&& walk(nodes, h, ranks[j]) == Some(j)
            &&& match nodes[j].next {
                Some(x) => 0 <= x < n && used(nodes, x as int) && homes[x as int] == h && ranks[x as int] == ranks[j] + 1,
                None => true,
            }
        }
}

/// The node part is well formed: its chains, and no chain longer than the node part.
pub open spec fn nodes_ok(nodes: Seq<Node>, free: int, log: nat, homes: Seq<int>, ranks: Seq<nat>) -> bool {
    &&& chains_ok(nodes, free, log, homes, ranks)
    &&& forall|j: int| 0 <= j < nodes.len() && used(nodes, j) ==> #[trigger] ranks[j] < nodes.len()
}

/// A key names a live object: a string key a string of the heap. `strings` tells, by handle,
/// which objects are strings.
pub open spec fn valid_key(key: Value, strs: Seq<Seq<u8>>, strings: Seq<bool>) -> bool {
    key matches Value::Str(handle) ==> handle.id() < strs.len() && handle.id() < strings.len() && strings[handle.id() as int]
}

/// An integer key inside the array part.
pub open spec fn in_array_part(k: KeyView, len: int) -> bool {
    k matches KeyView::Int(i) && 1 <= i <= len
}

/// What the table holds at key `k`: `nil` where it holds nothing.
pub open spec fn lookup(array: Seq<Value>, nodes: Seq<Node>, strs: Seq<Seq<u8>>, k: KeyView) -> Value {
    if in_array_part(k, array.len() as int) {
        array[k->Int_0 - 1]
    } else if exists|j: int| 0 <= j < nodes.len() && used(nodes, j) && key_view(nodes[j].key, strs) == k {
        nodes[choose|j: int| 0 <= j < nodes.len() && used(nodes, j) && key_view(nodes[j].key, strs) == k].value
    } else {
        Value::Nil
    }
}

/// The node keys: each a normal key naming a live object, placed by its hash, unlike every
/// other node's key, and never one the array part holds.
pub open spec fn keys_ok(array: Seq<Value>, nodes: Seq<Node>, homes: Seq<int>, strs: Seq<Seq<u8>>, strings: Seq<bool>) -> bool {
    let n = nodes.len() as int;
    &&& forall|j: int|
        0 <= j < n && used(nodes, j) ==> {
            &&& is_normal(#[trigger] nodes[j].key)
            &&& valid_key(nodes[j].key, strs, strings)
            &&& homes[j] == hash_of(key_view(nodes[j].key, strs)) as int % n
            &&& !in_array_part(key_view(nodes[j].key, strs), array.len() as int)
        }
    &&& forall|j1: int, j2: int|
        0 <= j1 < n && 0 <= j2 < n && j1 != j2 && used(nodes, j1) && used(nodes, j2)
            ==> key_view(#[trigger] nodes[j1].key, strs) != key_view(#[trigger] nodes[j2].key, strs)
}

/// What the table holds after one new key, held by no node and not in the array part, comes in
/// with `value`: every old node's key and value live on in some node (`to` says which), and the
/// only other key is the new one.
pub proof fn lemma_lookup_after_insert(
    array: Seq<Value>,
    nodes: Seq<Node>,
    nodes2: Seq<Node>,
    strs: Seq<Seq<u8>>,
    kv: KeyView,
    value: Value,
    to: spec_fn(int) -> int,
)
    requires
        !in_array_part(kv, array.len() as int),
        forall|j1: int, j2: int|
            0 <= j1 < nodes.len() && 0 <= j2 < nodes.len() && j1 != j2 && used(nodes, j1) && used(nodes, j2)
                ==> key_view(#[trigger] nodes[j1].key, strs) != key_view(#[trigger] nodes[j2].key, strs),
        forall|j1: int, j2: int|
            0 <= j1 < nodes2.len() && 0 <= j2 < nodes2.len() && j1 != j2 && used(nodes2, j1) && used(nodes2, j2)
                ==> key_view(#[trigger] nodes2[j1].key, strs) != key_view(#[trigger] nodes2[j2].key, strs),
        forall|j: int| 0 <= j < nodes.len() && used(nodes, j) ==> key_view(#[trigger] nodes[j].key, strs) != kv,
        forall|j: int|
            0 <= j < nodes.len() && used(nodes, j) ==> {
                let j2 = #[trigger] to(j);
                &&& 0 <= j2 < nodes2.len()
                &&& used(nodes2, j2)
                &&& key_view(nodes2[j2].key, strs) == key_view(nodes[j].key, strs)
                &&& nodes2[j2].value == nodes[j].value
            },
        exists|j2: int| 0 <= j2 < nodes2.len() && used(nodes2, j2) && key_view(nodes2[j2].key, strs) == kv && nodes2[j2].value == value,
        forall|j2: int|
            0 <= j2 < nodes2.len() && used(nodes2, j2) && key_view(#[trigger] nodes2[j2].key, strs) != kv ==> exists|j: int|
                0 <= j < nodes.len() && used(nodes, j) && key_view(nodes[j].key, strs) == key_view(nodes2[j2].key, strs),
    ensures
        forall|k: KeyView| #[trigger] lookup(array, nodes2, strs, k) == if k == kv {
            value
        } else {
            lookup(array, nodes, strs, k)
        },
{
    assert forall|k: KeyView| #[trigger] lookup(array, nodes2, strs, k) == if k == kv {
        value
    } else {
        lookup(array, nodes, strs, k)
    } by {
        if !in_array_part(k, array.len() as int) {
            if k == kv {
                let w = choose|j2: int| 0 <= j2 < nodes2.len() && used(nodes2, j2) && key_view(nodes2[j2].key, strs) == kv && nodes2[j2].value == value;
                let c = choose|j: int| 0 <= j < nodes2.len() && used(nodes2, j) && key_view(nodes2[j].key, strs) == k;
                assert(key_view(nodes2[w].key, strs) == k);
                if c != w {
                    assert(key_view(nodes2[c].key, strs) != key_view(nodes2[w].key, strs));
                }
            } else if exists|j: int| 0 <= j < nodes.len() && used(nodes, j) && key_view(nodes[j].key, strs) == k {
                let c = choose|j: int| 0 <= j < nodes.len() && used(nodes, j) && key_view(nodes[j].key, strs) == k;
                let t = to(c);
                assert(key_view(nodes2[t].key, strs) == k);
                let c2 = choose|j: int| 0 <= j < nodes2.len() && used(nodes2, j) && key_view(nodes2[j].key, strs) == k;
                if c2 != t {
                    assert(key_view(nodes2[c2].key, strs) != key_view(nodes2[t].key, strs));
                }
            } else {
                if exists|j: int| 0 <= j < nodes2.len() && used(nodes2, j) && key_view(nodes2[j].key, strs) == k {
                    let c2 = choose|j: int| 0 <= j < nodes2.len() && used(nodes2, j) && key_view(nodes2[j].key, strs) == k;
                    assert(key_view(nodes2[c2].key, strs) != kv);
                }
            }
        }
    }
}

impl Table {
    /// The table is well formed over the heap's objects.
    pub(crate) open spec fn ok(&self, strs: Seq<Seq<u8>>, strings: Seq<bool>) -> bool {
        &&& nodes_ok(self.nodes@, self.free as int, self.log@, self.homes@, self.ranks@)
        &&& keys_ok(self.array@, self.nodes@, self.homes@, strs, strings)
        &&& self.array@.len() < i64::MAX
    }

    /// What the table holds at key `k`.
    pub(crate) open spec fn get(&self, strs: Seq<Seq<u8>>, k: KeyView) -> Value {
        lookup(self.array@, self.nodes@, strs, k)
    }

    /// The keys the table holds something at.
    pub(crate) open spec fn held(&self, strs: Seq<Seq<u8>>) -> Set<KeyView> {
        Set::new(|k: KeyView| self.get(strs, k) != Value::Nil)
    }

    /// A table with nothing in it.
    pub(crate) fn empty() -> (table: Table)
        ensures
            table.array@.len() == 0,
            table.nodes@.len() == 0,
            forall|strs: Seq<Seq<u8>>, strings: Seq<bool>| table.ok(strs, strings),
            forall|strs: Seq<Seq<u8>>, k: KeyView| table.get(strs, k) == Value::Nil,
    {
        Table {
            array: Vec::new(),
            nodes: Vec::new(),
            free: 0,
            log: Ghost(0),
            homes: Ghost(Seq::empty()),
            ranks: Ghost(Seq::empty()),
        }
    }
}

/// A table stays well formed, and holds what it held, when the heap gains an object.
pub(crate) proof fn lemma_ok_grows(t: Table, strs: Seq<Seq<u8>>, strings: Seq<bool>, x: Seq<u8>, b: bool)
    requires
        t.ok(strs, strings),
        strings.len() == strs.len(),
    ensures
        t.ok(strs.push(x), strings.push(b)),
        forall|k: KeyView| #[trigger] t.get(strs.push(x), k) == t.get(strs, k),
{
    let s2 = strs.push(x);
    let g2 = strings.push(b);
    let nodes = t.nodes@;
    let n = nodes.len() as int;
    assert forall|j: int| 0 <= j < n && used(nodes, j) implies key_view(#[trigger] nodes[j].key, s2) == key_view(nodes[j].key, strs)
        && valid_key(nodes[j].key, s2, g2) by {
        if let Value::Str(h) = nodes[j].key {
            assert(s2[h.id() as int] == strs[h.id() as int]);
            assert(g2[h.id() as int] == strings[h.id() as int]);
        }
    }
    assert forall|k: KeyView| #[trigger] t.get(s2, k) == t.get(strs, k) by {
        if !in_array_part(k, t.array@.len() as int) {
            if exists|j: int| 0 <= j < n && used(nodes, j) && key_view(nodes[j].key, strs) == k {
                let j = choose|j: int| 0 <= j < n && used(nodes, j) && key_view(nodes[j].key, strs) == k;
                assert(key_view(nodes[j].key, s2) == k);
                let j2 = choose|j: int| 0 <= j < n && used(nodes, j) && key_view(nodes[j].key, s2) == k;
                assert(key_view(nodes[j2].key, strs) == k);
                if j != j2 {
                    assert(key_view(nodes[j].key, strs) != key_view(nodes[j2].key, strs));
                }
            } else {
                if exists|j: int| 0 <= j < n && used(nodes, j) && key_view(nodes[j].key, s2) == k {
                    let j2 = choose|j: int| 0 <= j < n && used(nodes, j) && key_view(nodes[j].key, s2) == k;
                    assert(key_view(nodes[j2].key, strs) == k);
                }
            }
        }
    }
}

/// Once a walk has run off the end of its chain it stays off.
pub proof fn lemma_walk_none(nodes: Seq<Node>, s: int, a: nat, b: nat)
    requires
        a <= b,
        walk(nodes, s, a) is None,
    ensures
        walk(nodes, s, b) is None,
    decreases b - a,
{
    if a < b {
        lemma_walk_none(nodes, s, a, (b - 1) as nat);
    }
}

/// A walk from a chain's head reaches, at step `i`, a used node of that chain whose rank is `i`.
pub proof fn lemma_walk_rank(nodes: Seq<Node>, free: int, log: nat, homes: Seq<int>, ranks: Seq<nat>, h: int, i: nat)
    requires
        chains_ok(nodes, free, log, homes, ranks),
        0 <= h < nodes.len(),
        used(nodes, h),
        homes[h] == h,
        walk(nodes, h, i) is Some,
    ensures
        ({
            let x = walk(nodes, h, i)->0;
            &&& 0 <= x < nodes.len()
            &&& used(nodes, x)
            &&& homes[x] == h
            &&& ranks[x] == i
        }),
    decreases i,
{
    if i > 0 {
        let prev = walk(nodes, h, (i - 1) as nat);
        if prev is None {
            lemma_walk_none(nodes, h, (i - 1) as nat, i);
        } else {
            lemma_walk_rank(nodes, free, log, homes, ranks, h, (i - 1) as nat);
            let p = prev->0;
            assert(used(nodes, p));
        }
    } else {
        assert(homes[h] == h);
        assert(ranks[h] == 0);
    }
}

/// Two node arrays that link alike along a walk give the same walk.
pub proof fn lemma_walk_same(nodes: Seq<Node>, nodes2: Seq<Node>, s: int, i: nat)
    requires
        nodes.len() == nodes2.len(),
        forall|t: nat| t < i && walk(nodes, s, t) is Some ==> {
            let x = walk(nodes, s, t)->0;
            0 <= x < nodes.len() ==> nodes2[x].next == nodes[x].next
        },
    ensures
        walk(nodes2, s, i) == walk(nodes, s, i),
    decreases i,
{
    if i > 0 {
        lemma_walk_same(nodes, nodes2, s, (i - 1) as nat);
        let prev = walk(nodes, s, (i - 1) as nat);
        if prev is Some {
            assert(((i - 1) as nat) < i);
        }
    }
}

/// No more distinct places than there are nodes: a walk whose first `r + 1` steps all land
/// on distinct nodes is shorter than the node array.
pub proof fn lemma_walk_short(nodes: Seq<Node>, free: int, log: nat, homes: Seq<int>, ranks: Seq<nat>, h: int, r: nat)
    requires
        chains_ok(nodes, free, log, homes, ranks),
        0 <= h < nodes.len(),
        used(nodes, h),
        homes[h] == h,
        walk(nodes, h, r) is Some,
    ensures
        r < nodes.len(),
{
    let n = nodes.len() as int;
    let steps = vstd::set_lib::set_int_range(0, r as int + 1);
    let places = vstd::set_lib::set_int_range(0, n);
    let f = |t: int| walk(nodes, h, t as nat)->0;
    vstd::set_lib::lemma_int_range(0, r as int + 1);
    vstd::set_lib::lemma_int_range(0, n);
    assert forall|t: int| 0 <= t <= r implies walk(nodes, h, t as nat) is Some && 0 <= #[trigger] f(t) < n
        && ranks[f(t)] == t by {
        if walk(nodes, h, t as nat) is None {
            lemma_walk_none(nodes, h, t as nat, r);
        }
        lemma_walk_rank(nodes, free, log, homes, ranks, h, t as nat);
    }
    assert(vstd::relations::injective_on(f, steps)) by {
        assert forall|a: int, b: int| steps.contains(a) && steps.contains(b) && #[trigger] f(a) == #[trigger] f(b) implies a == b by {
            assert(ranks[f(a)] == a);
            assert(ranks[f(b)] == b);
        }
    }
    let image = steps.map(f);
    vstd::set_lib::lemma_map_size(steps, image, f);
    assert(image.subset_of(places)) by {
        assert forall|x: int| image.contains(x) implies places.contains(x) by {
            let t = choose|t: int| steps.contains(t) && f(t) == x;
            assert(0 <= f(t) < n);
        }
    }
    vstd::set_lib::lemma_len_subset(image, places);
}

/// How many nodes hold a key.
pub open spec fn count_used(nodes: Seq<Node>) -> nat
    decreases nodes.len(),
{
    if nodes.len() == 0 {
        0
    } else {
        count_used(nodes.drop_last()) + if used(nodes, nodes.len() - 1) {
            1nat
        } else {
            0nat
        }
    }
}

pub proof fn lemma_count_used_bound(nodes: Seq<Node>)
    ensures
        count_used(nodes) <= nodes.len(),
        count_used(nodes) < nodes.len() ==> exists|j: int| 0 <= j < nodes.len() && !used(nodes, j),
    decreases nodes.len(),
{
    if nodes.len() > 0 {
        lemma_count_used_bound(nodes.drop_last());
        if count_used(nodes) < nodes.len() {
            if used(nodes, nodes.len() - 1) {
                let j = choose|j: int| 0 <= j < nodes.len() - 1 && !used(nodes.drop_last(), j);
                assert(nodes.drop_last()[j] == nodes[j]);
                assert(!used(nodes, j));
            } else {
                assert(!used(nodes, nodes.len() - 1));
            }
        }
    }
}

/// Every node used: all of them counted.
pub proof fn lemma_count_used_all(nodes: Seq<Node>)
    requires
        forall|j: int| 0 <= j < nodes.len() ==> used(nodes, j),
    ensures
        count_used(nodes) == nodes.len(),
    decreases nodes.len(),
{
    if nodes.len() > 0 {
        assert forall|j: int| 0 <= j < nodes.len() - 1 implies used(nodes.drop_last(), j) by {
            assert(nodes.drop_last()[j] == nodes[j]);
            assert(used(nodes, j));
        }
        lemma_count_used_all(nodes.drop_last());
        assert(used(nodes, nodes.len() - 1));
    }
}

/// Filling one free node adds one to the count.
pub proof fn lemma_count_used_fill(nodes: Seq<Node>, j: int, node: Node)
    requires
        0 <= j < nodes.len(),
        !used(nodes, j),
        node.key != Value::Nil,
    ensures
        count_used(nodes.update(j, node)) == count_used(nodes) + 1,
    decreases nodes.len(),
{
    let u = nodes.update(j, node);
    if j == nodes.len() - 1 {
        assert(u.drop_last() =~= nodes.drop_last());
    } else {
        assert(u.drop_last() =~= nodes.drop_last().update(j, node));
        lemma_count_used_fill(nodes.drop_last(), j, node);
    }
}

/// Changing what a node holds or links to, but not whether it holds a key, keeps the count.
pub proof fn lemma_count_used_same(nodes: Seq<Node>, nodes2: Seq<Node>)
    requires
        nodes.len() == nodes2.len(),
        forall|j: int| 0 <= j < nodes.len() ==> used(nodes, j) == used(nodes2, j),
    ensures
        count_used(nodes2) == count_used(nodes),
    decreases nodes.len(),
{
    if nodes.len() > 0 {
        assert forall|j: int| 0 <= j < nodes.len() - 1 implies used(nodes.drop_last(), j) == used(nodes2.drop_last(), j) by {
            assert(nodes.drop_last()[j] == nodes[j]);
            assert(nodes2.drop_last()[j] == nodes2[j]);
            assert(used(nodes, j) == used(nodes2, j));
        }
        lemma_count_used_same(nodes.drop_last(), nodes2.drop_last());
        assert(used(nodes, nodes.len() - 1) == used(nodes2, nodes.len() - 1));
    }
}

/// All nodes free: none counted.
pub proof fn lemma_count_used_none(nodes: Seq<Node>)
    requires
        forall|j: int| 0 <= j < nodes.len() ==> !used(nodes, j),
    ensures
        count_used(nodes) == 0,
    decreases nodes.len(),
{
    if nodes.len() > 0 {
        assert forall|j: int| 0 <= j < nodes.len() - 1 implies !used(nodes.drop_last(), j) by {
            assert(nodes.drop_last()[j] == nodes[j]);
            assert(!used(nodes, j));
        }
        lemma_count_used_none(nodes.drop_last());
        assert(!used(nodes, nodes.len() - 1));
    }
}

impl Table {
    /// A table with room made for `array_hint` array entries and `hash_hint` keyed ones.
    pub(crate) fn with_hints(array_hint: usize, hash_hint: usize) -> (table: Table)
        requires
            array_hint < i64::MAX,
            hash_hint < 0x4000_0000,
        ensures
            forall|strs: Seq<Seq<u8>>, strings: Seq<bool>| table.ok(strs, strings),
            forall|strs: Seq<Seq<u8>>, k: KeyView| table.get(strs, k) == Value::Nil,
            table.array@.len() == array_hint,
            forall|i: int| 0 <= i < table.array@.len() ==> table.array@[i] == Value::Nil,
            table.nodes@.len() == super::size::nodes_for_spec(hash_hint as int),
            count_used(table.nodes@) == 0,
    {
        let count = super::size::nodes_for(hash_hint);
        let ghost log: nat = if count == 0 {
            0
        } else {
            choose|p: nat| count == pow2(p)
        };
        let mut array: Vec<Value> = Vec::new();
        while array.len() < array_hint
            invariant
                array@.len() <= array_hint,
                forall|i: int| 0 <= i < array@.len() ==> array@[i] == Value::Nil,
            decreases array_hint - array@.len(),
        {
            array.push(Value::Nil);
        }
        let mut nodes: Vec<Node> = Vec::new();
        while nodes.len() < count
            invariant
                nodes@.len() <= count,
                forall|i: int| 0 <= i < nodes@.len() ==> !used(nodes@, i) && nodes@[i].value == Value::Nil && nodes@[i].next is None,
            decreases count - nodes@.len(),
        {
            let node = Node::free();
            assert(node.key == Value::Nil);
            assert(node.next is None);
            let ghost before = nodes@;
            nodes.push(node);
            proof {
                assert forall|i: int| 0 <= i < nodes@.len() implies !used(nodes@, i) && nodes@[i].value == Value::Nil
                    && nodes@[i].next is None by {
                    if i < before.len() {
                        assert(nodes@[i] == before[i]);
                        assert(!used(before, i));
                        assert(before[i].value == Value::Nil);
                        assert(before[i].next is None);
                    } else {
                        assert(nodes@[i] == node);
                        assert(!used(nodes@, i));
                        assert(nodes@[i].value == Value::Nil);
                    }
                }
            }
        }
        let table = Table {
            array,
            nodes,
            free: 0,
            log: Ghost(log),
            homes: Ghost(Seq::new(count as nat, |j: int| 0int)),
            ranks: Ghost(Seq::new(count as nat, |j: int| 0nat)),
        };
        proof {
            assert forall|j: int| 0 <= j < table.nodes@.len() implies !used(table.nodes@, j) by {}
            lemma_count_used_none(table.nodes@);
            assert forall|strs: Seq<Seq<u8>>, strings: Seq<bool>| table.ok(strs, strings) by {
                assert(nodes_ok(table.nodes@, table.free as int, table.log@, table.homes@, table.ranks@));
            }
            assert forall|strs: Seq<Seq<u8>>, k: KeyView| table.get(strs, k) == Value::Nil by {
                if in_array_part(k, table.array@.len() as int) {
                    assert(table.array@[k->Int_0 - 1] == Value::Nil);
                }
            }
        }
        table
    }

    /// Lays out both parts anew, empty, for a known number of entries.
    pub(crate) fn rebuild(&mut self, array_size: usize, hash_count: usize)
        requires
            array_size < i64::MAX,
            hash_count < 0x4000_0000,
        ensures
            forall|strs: Seq<Seq<u8>>, strings: Seq<bool>| final(self).ok(strs, strings),
            final(self).array@.len() == array_size,
            forall|i: int| 0 <= i < final(self).array@.len() ==> final(self).array@[i] == Value::Nil,
            final(self).nodes@.len() == super::size::nodes_for_spec(hash_count as int),
            count_used(final(self).nodes@) == 0,
    {
        *self = Table::with_hints(array_size, hash_count);
    }

    pub(crate) fn array_len(&self) -> (len: usize)
        ensures
            len == self.array@.len(),
    {
        self.array.len()
    }

    /// Whether an integer key falls inside the array part.
    pub(crate) fn in_array(&self, key: i64) -> (inside: bool)
        ensures
            inside == (1 <= key <= self.array@.len()),
    {
        key >= 1 && (key as u64) <= (self.array.len() as u64)
    }

    /// The slot of the array part a key names, if it names one.
    pub(crate) fn array_index(&self, key: Value) -> (index: Option<usize>)
        ensures
            match index {
                Some(i) => key matches Value::Int(number) && 1 <= number <= self.array@.len() && i == number - 1,
                None => !(key matches Value::Int(number) && 1 <= number <= self.array@.len()),
            },
    {
        let number = match key {
            Value::Int(number) => number,
            _ => return None,
        };
        if number < 1 || (number as u64) > (self.array.len() as u64) {
            return None;
        }
        Some((number - 1) as usize)
    }

    pub(crate) fn array_get(&self, key: Value) -> (value: Option<Value>)
        ensures
            match value {
                Some(v) => key matches Value::Int(number) && 1 <= number <= self.array@.len() && v == self.array@[number - 1],
                None => !(key matches Value::Int(number) && 1 <= number <= self.array@.len()),
            },
    {
        let index = self.array_index(key)?;
        Some(self.array[index])
    }

    pub(crate) fn array_set(&mut self, key: Value, value: Value) -> (stored: bool)
        ensures
            stored == (key matches Value::Int(number) && 1 <= number <= old(self).array@.len()),
            stored ==> (key matches Value::Int(number) && final(self).array@ == old(self).array@.update(number - 1, value)),
            !stored ==> final(self).array@ == old(self).array@,
            final(self).nodes@ == old(self).nodes@,
            final(self).free == old(self).free,
            final(self).log == old(self).log,
            final(self).homes == old(self).homes,
            final(self).ranks == old(self).ranks,
    {
        match self.array_index(key) {
            Some(index) => {
                self.array.set(index, value);
                true
            },
            None => false,
        }
    }

    /// The node a hash belongs in, if there is a node part at all.
    pub(crate) fn main_position(&self, hash: u32) -> (main: Option<usize>)
        requires
            self.nodes@.len() == 0 || self.nodes@.len() == pow2(self.log@),
        ensures
            match main {
                Some(m) => self.nodes@.len() > 0 && m == hash as int % self.nodes@.len() as int,
                None => self.nodes@.len() == 0,
            },
    {
        if self.nodes.len() == 0 {
            return None;
        }
        proof {
            crate::heap::intern::lemma_mask(hash as usize, self.nodes.len(), self.log@);
        }
        Some(hash as usize & (self.nodes.len() - 1))
    }

    pub(crate) fn node_key(&self, index: usize) -> (key: Value)
        requires
            index < self.nodes@.len(),
        ensures
            key == self.nodes@[index as int].key,
    {
        self.nodes[index].key
    }

    pub(crate) fn node_value(&self, index: usize) -> (value: Value)
        requires
            index < self.nodes@.len(),
        ensures
            value == self.nodes@[index as int].value,
    {
        self.nodes[index].value
    }

    pub(crate) fn node_next(&self, index: usize) -> (next: Option<usize>)
        requires
            index < self.nodes@.len(),
        ensures
            match self.nodes@[index as int].next {
                Some(x) => next == Some(x as usize),
                None => next is None,
            },
    {
        match self.nodes[index].next {
            Some(next) => Some(next as usize),
            None => None,
        }
    }

    pub(crate) fn node_is_free(&self, index: usize) -> (free: bool)
        requires
            index < self.nodes@.len(),
        ensures
            free == !used(self.nodes@, index as int),
    {
        matches!(self.nodes[index].key, Value::Nil)
    }

    /// An unused node, if the node part still has one past the cursor.
    pub(crate) fn take_free(&mut self) -> (found: Option<usize>)
        requires
            old(self).free <= old(self).nodes@.len(),
            forall|j: int| old(self).nodes@.len() - old(self).free <= j < old(self).nodes@.len() ==> used(old(self).nodes@, j),
        ensures
            final(self).array@ == old(self).array@,
            final(self).nodes@ == old(self).nodes@,
            final(self).log == old(self).log,
            final(self).homes == old(self).homes,
            final(self).ranks == old(self).ranks,
            old(self).free <= final(self).free <= final(self).nodes@.len(),
            match found {
                Some(j) => {
                    &&& j < final(self).nodes@.len()
                    &&& !used(final(self).nodes@, j as int)
                    &&& j == final(self).nodes@.len() - final(self).free
                    &&& forall|x: int| j < x < final(self).nodes@.len() ==> used(final(self).nodes@, x)
                },
                None => forall|x: int| 0 <= x < final(self).nodes@.len() ==> used(final(self).nodes@, x),
            },
    {
        while self.free < self.nodes.len()
            invariant
                self.array@ == old(self).array@,
                self.nodes@ == old(self).nodes@,
                self.log == old(self).log,
                self.homes == old(self).homes,
                self.ranks == old(self).ranks,
                old(self).free <= self.free <= self.nodes@.len(),
                forall|j: int| self.nodes@.len() - self.free <= j < self.nodes@.len() ==> used(self.nodes@, j),
            decreases self.nodes@.len() - self.free,
        {
            let index = self.nodes.len() - 1 - self.free;
            self.free += 1;
            if matches!(self.nodes[index].key, Value::Nil) {
                return Some(index);
            }
        }
        None
    }

    pub(crate) fn put_node(&mut self, index: usize, key: Value, value: Value, next: Option<usize>)
        requires
            index < old(self).nodes@.len(),
            next matches Some(x) ==> x < 0x1_0000_0000,
        ensures
            final(self).nodes@ == old(self).nodes@.update(
                index as int,
                Node {
                    key,
                    value,
                    next: match next {
                        Some(x) => Some(x as u32),
                        None => None,
                    },
                },
            ),
            final(self).array@ == old(self).array@,
            final(self).free == old(self).free,
            final(self).log == old(self).log,
            final(self).homes == old(self).homes,
            final(self).ranks == old(self).ranks,
    {
        let link = match next {
            Some(next) => Some(next as u32),
            None => None,
        };
        self.nodes.set(index, Node { key, value, next: link });
    }

    pub(crate) fn set_node_value(&mut self, index: usize, value: Value)
        requires
            index < old(self).nodes@.len(),
        ensures
            final(self).nodes@ == old(self).nodes@.update(
                index as int,
                Node { value, ..old(self).nodes@[index as int] },
            ),
            final(self).array@ == old(self).array@,
            final(self).free == old(self).free,
            final(self).log == old(self).log,
            final(self).homes == old(self).homes,
            final(self).ranks == old(self).ranks,
    {
        let mut node = self.nodes[index];
        node.value = value;
        self.nodes.set(index, node);
    }

    pub(crate) fn set_node_next(&mut self, index: usize, next: Option<usize>)
        requires
            index < old(self).nodes@.len(),
            next matches Some(x) ==> x < 0x1_0000_0000,
        ensures
            final(self).nodes@ == old(self).nodes@.update(
                index as int,
                Node {
                    next: match next {
                        Some(x) => Some(x as u32),
                        None => None,
                    },
                    ..old(self).nodes@[index as int]
                },
            ),
            final(self).array@ == old(self).array@,
            final(self).free == old(self).free,
            final(self).log == old(self).log,
            final(self).homes == old(self).homes,
            final(self).ranks == old(self).ranks,
    {
        let mut node = self.nodes[index];
        node.next = match next {
            Some(next) => Some(next as u32),
            None => None,
        };
        self.nodes.set(index, node);
    }
}

/// What a list of distinct entries holds at key `k`.
pub open spec fn entries_get(entries: Seq<(Value, Value)>, strs: Seq<Seq<u8>>, k: KeyView) -> Value {
    if exists|i: int| 0 <= i < entries.len() && key_view(entries[i].0, strs) == k {
        entries[choose|i: int| 0 <= i < entries.len() && key_view(entries[i].0, strs) == k].1
    } else {
        Value::Nil
    }
}

/// A list of live entries: each a normal key naming a live object, with a value, no key twice.
pub open spec fn entries_ok(entries: Seq<(Value, Value)>, strs: Seq<Seq<u8>>, strings: Seq<bool>) -> bool {
    &&& forall|i: int|
        0 <= i < entries.len() ==> #[trigger] entries[i].1 != Value::Nil && is_normal(entries[i].0) && valid_key(
            entries[i].0,
            strs,
            strings,
        )
    &&& forall|i: int, j: int|
        0 <= i < entries.len() && 0 <= j < entries.len() && i != j ==> key_view(#[trigger] entries[i].0, strs) != key_view(
            #[trigger] entries[j].0,
            strs,
        )
}

/// The first `count` entries come from the array part: their keys index it, and their values
/// are what it holds there.
pub open spec fn from_array_part(entries: Seq<(Value, Value)>, strs: Seq<Seq<u8>>, array: Seq<Value>, count: int) -> bool {
    forall|i: int| 0 <= i < count ==> #[trigger] in_array_part(key_view(entries[i].0, strs), array.len() as int)
        && entries[i].1 == array[key_view(entries[i].0, strs)->Int_0 - 1]
}

impl Table {
    /// Everything the table holds, emptied out: the array part's entries in order, then the
    /// node part's.
    pub(crate) fn drain_all(&mut self, Ghost(strs): Ghost<Seq<Seq<u8>>>, Ghost(strings): Ghost<Seq<bool>>) -> (entries: Vec<(Value, Value)>)
        requires
            old(self).ok(strs, strings),
        ensures
            entries_ok(entries@, strs, strings),
            forall|k: KeyView| #[trigger] entries_get(entries@, strs, k) == old(self).get(strs, k),
            entries@.len() <= old(self).array@.len() + old(self).nodes@.len(),
            final(self).array@.len() == 0,
            final(self).nodes@.len() == 0,
            final(self).free == 0,
    {
        let ghost array = self.array@;
        let ghost nodes = self.nodes@;
        let mut entries: Vec<(Value, Value)> = Vec::new();
        let mut index: usize = 0;
        while index < self.array.len()
            invariant
                self.array@ == array,
                self.nodes@ == nodes,
                self.ok(strs, strings),
                index <= array.len(),
                entries@.len() <= index,
                entries_ok(entries@, strs, strings),
                forall|i: int| 0 <= i < entries@.len() ==> #[trigger] in_array_part(key_view(entries@[i].0, strs), index as int)
                    && entries@[i].1 == array[key_view(entries@[i].0, strs)->Int_0 - 1],
                forall|t: int| 0 <= t < index && array[t] != Value::Nil ==> exists|i: int|
                    0 <= i < entries@.len() && #[trigger] key_view(entries@[i].0, strs) == KeyView::Int((t + 1) as i64),
            decreases array.len() - index,
        {
            let value = self.array[index];
            if !matches!(value, Value::Nil) {
                let ghost before = entries@;
                let key = Value::Int(index as i64 + 1);
                entries.push((key, value));
                proof {
                    assert(entries@[before.len() as int] == (key, value));
                    assert forall|i: int, j: int|
                        0 <= i < entries@.len() && 0 <= j < entries@.len() && i != j implies key_view(#[trigger] entries@[i].0, strs)
                        != key_view(#[trigger] entries@[j].0, strs) by {
                        if i < before.len() && j < before.len() {
                            assert(entries@[i] == before[i] && entries@[j] == before[j]);
                        } else if i < before.len() {
                            assert(entries@[i] == before[i]);
                            assert(in_array_part(key_view(before[i].0, strs), index as int));
                        } else {
                            assert(entries@[j] == before[j]);
                            assert(in_array_part(key_view(before[j].0, strs), index as int));
                        }
                    }
                    assert forall|i: int| 0 <= i < entries@.len() implies #[trigger] entries@[i].1 != Value::Nil && is_normal(entries@[i].0)
                        && valid_key(entries@[i].0, strs, strings) by {
                        if i < before.len() {
                            assert(entries@[i] == before[i]);
                        }
                    }
                    assert forall|i: int| 0 <= i < entries@.len() implies #[trigger] in_array_part(key_view(entries@[i].0, strs), index + 1)
                        && entries@[i].1 == array[key_view(entries@[i].0, strs)->Int_0 - 1] by {
                        if i < before.len() {
                            assert(entries@[i] == before[i]);
                            assert(in_array_part(key_view(before[i].0, strs), index as int));
                        } else {
                            assert(array.len() <= i64::MAX);
                            assert(key_view(key, strs) == KeyView::Int((index + 1) as i64));
                            assert((index as i64 + 1) as int == index + 1);
                        }
                    }
                    assert forall|t: int| 0 <= t < index + 1 && array[t] != Value::Nil implies exists|i: int|
                        0 <= i < entries@.len() && #[trigger] key_view(entries@[i].0, strs) == KeyView::Int((t + 1) as i64) by {
                        if t < index {
                            let i = choose|i: int| 0 <= i < before.len() && #[trigger] key_view(before[i].0, strs) == KeyView::Int((t + 1) as i64);
                            assert(entries@[i] == before[i]);
                        } else {
                            assert(key_view(entries@[before.len() as int].0, strs) == KeyView::Int((t + 1) as i64));
                        }
                    }
                }
            } else {
                proof {
                    assert forall|i: int| 0 <= i < entries@.len() implies #[trigger] in_array_part(key_view(entries@[i].0, strs), index + 1)
                        && entries@[i].1 == array[key_view(entries@[i].0, strs)->Int_0 - 1] by {
                        assert(in_array_part(key_view(entries@[i].0, strs), index as int));
                    }
                }
            }
            index += 1;
        }
        let ghost from_array = entries@.len();
        proof {
            assert(index == array.len());
            assert forall|i: int| 0 <= i < from_array implies #[trigger] in_array_part(key_view(entries@[i].0, strs), array.len() as int)
                && entries@[i].1 == array[key_view(entries@[i].0, strs)->Int_0 - 1] by {
                assert(in_array_part(key_view(entries@[i].0, strs), index as int));
            }
            assert(from_array_part(entries@, strs, array, from_array as int));
        }
        let mut at: usize = 0;
        while at < self.nodes.len()
            invariant
                self.array@ == array,
                self.nodes@ == nodes,
                self.ok(strs, strings),
                at <= nodes.len(),
                from_array <= entries@.len() <= from_array + at,
                from_array <= array.len(),
                entries_ok(entries@, strs, strings),
                from_array_part(entries@, strs, array, from_array as int),
                forall|t: int| 0 <= t < array.len() && array[t] != Value::Nil ==> exists|i: int|
                    0 <= i < entries@.len() && #[trigger] key_view(entries@[i].0, strs) == KeyView::Int((t + 1) as i64),
                forall|i: int| from_array <= i < entries@.len() ==> exists|j: int|
                    0 <= j < at && used(nodes, j) && #[trigger] key_view(entries@[i].0, strs) == key_view(nodes[j].key, strs) && entries@[i].1 == nodes[j].value,
                forall|j: int| 0 <= j < at && used(nodes, j) && nodes[j].value != Value::Nil ==> exists|i: int|
                    from_array <= i < entries@.len() && #[trigger] key_view(entries@[i].0, strs) == key_view(nodes[j].key, strs),
            decreases nodes.len() - at,
        {
            let node = self.nodes[at];
            if !matches!(node.value, Value::Nil) {
                let ghost before = entries@;
                proof {
                    if !used(nodes, at as int) {
                        assert(nodes[at as int].value == Value::Nil);
                    }
                }
                entries.push((node.key, node.value));
                proof {
                    let kv = key_view(node.key, strs);
                    assert(entries@[before.len() as int] == (node.key, node.value));
                    assert forall|i: int| 0 <= i < entries@.len() implies #[trigger] entries@[i].1 != Value::Nil && is_normal(entries@[i].0)
                        && valid_key(entries@[i].0, strs, strings) by {
                        if i < before.len() {
                            assert(entries@[i] == before[i]);
                        }
                    }
                    assert forall|i: int, j: int|
                        0 <= i < entries@.len() && 0 <= j < entries@.len() && i != j implies key_view(#[trigger] entries@[i].0, strs)
                        != key_view(#[trigger] entries@[j].0, strs) by {
                        if i < before.len() && j < before.len() {
                            assert(entries@[i] == before[i] && entries@[j] == before[j]);
                        } else {
                            let o = if i < before.len() { i } else { j };
                            assert(entries@[o] == before[o]);
                            if o < from_array {
                                assert(in_array_part(key_view(before[o].0, strs), array.len() as int));
                            } else {
                                let w = choose|w: int| 0 <= w < at && used(nodes, w) && #[trigger] key_view(before[o].0, strs) == key_view(nodes[w].key, strs) && before[o].1 == nodes[w].value;
                                assert(w != at);
                            }
                        }
                    }
                    assert forall|i: int| 0 <= i < from_array implies #[trigger] in_array_part(key_view(entries@[i].0, strs), array.len() as int)
                        && entries@[i].1 == array[key_view(entries@[i].0, strs)->Int_0 - 1] by {
                        assert(entries@[i] == before[i]);
                        assert(in_array_part(key_view(before[i].0, strs), array.len() as int));
                    }
                    assert forall|t: int| 0 <= t < array.len() && array[t] != Value::Nil implies exists|i: int|
                        0 <= i < entries@.len() && #[trigger] key_view(entries@[i].0, strs) == KeyView::Int((t + 1) as i64) by {
                        let i = choose|i: int| 0 <= i < before.len() && #[trigger] key_view(before[i].0, strs) == KeyView::Int((t + 1) as i64);
                        assert(entries@[i] == before[i]);
                    }
                    assert forall|i: int| from_array <= i < entries@.len() implies exists|j: int|
                        0 <= j < at + 1 && used(nodes, j) && #[trigger] key_view(entries@[i].0, strs) == key_view(nodes[j].key, strs) && entries@[i].1 == nodes[j].value by {
                        if i < before.len() {
                            assert(entries@[i] == before[i]);
                            let w = choose|w: int| 0 <= w < at && used(nodes, w) && #[trigger] key_view(before[i].0, strs) == key_view(nodes[w].key, strs) && before[i].1 == nodes[w].value;
                        } else {
                            assert(used(nodes, at as int));
                        }
                    }
                    assert forall|j: int| 0 <= j < at + 1 && used(nodes, j) && nodes[j].value != Value::Nil implies exists|i: int|
                        from_array <= i < entries@.len() && #[trigger] key_view(entries@[i].0, strs) == key_view(nodes[j].key, strs) by {
                        if j < at {
                            let i = choose|i: int| from_array <= i < before.len() && #[trigger] key_view(before[i].0, strs) == key_view(nodes[j].key, strs);
                            assert(entries@[i] == before[i]);
                        } else {
                            assert(key_view(entries@[before.len() as int].0, strs) == key_view(nodes[j].key, strs));
                        }
                    }
                }
            }
            at += 1;
        }
        proof {
            let e = entries@;
            assert forall|k: KeyView| #[trigger] entries_get(e, strs, k) == lookup(array, nodes, strs, k) by {
                if exists|i: int| 0 <= i < e.len() && key_view(e[i].0, strs) == k {
                    let i = choose|i: int| 0 <= i < e.len() && key_view(e[i].0, strs) == k;
                    if i < from_array {
                        assert(in_array_part(k, array.len() as int));
                    } else {
                        let w = choose|w: int| 0 <= w < nodes.len() && used(nodes, w) && #[trigger] key_view(e[i].0, strs) == key_view(nodes[w].key, strs) && e[i].1 == nodes[w].value;
                        assert(!in_array_part(k, array.len() as int));
                        let c = choose|j: int| 0 <= j < nodes.len() && used(nodes, j) && key_view(nodes[j].key, strs) == k;
                        if c != w {
                            assert(key_view(nodes[c].key, strs) != key_view(nodes[w].key, strs));
                        }
                    }
                } else {
                    if in_array_part(k, array.len() as int) {
                        let t = k->Int_0 - 1;
                        if array[t] != Value::Nil {
                            let i = choose|i: int| 0 <= i < e.len() && #[trigger] key_view(e[i].0, strs) == KeyView::Int((t + 1) as i64);
                        }
                    } else if exists|j: int| 0 <= j < nodes.len() && used(nodes, j) && key_view(nodes[j].key, strs) == k {
                        let c = choose|j: int| 0 <= j < nodes.len() && used(nodes, j) && key_view(nodes[j].key, strs) == k;
                        if nodes[c].value != Value::Nil {
                            let i = choose|i: int| from_array <= i < e.len() && #[trigger] key_view(e[i].0, strs) == key_view(nodes[c].key, strs);
                        }
                    }
                }
            }
        }
        self.array = Vec::new();
        self.nodes = Vec::new();
        self.free = 0;
        entries
    }
}

} // verus!
