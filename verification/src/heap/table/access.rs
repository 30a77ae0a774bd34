//! Reading and writing a table.
use vstd::prelude::*;

use super::key::{hash_of, is_normal, key_view, normalized, to_le_bytes, KeyView};
use super::chain::{lemma_fill_home, lemma_link_after_head, lemma_move_squatter};
use super::store::{
    count_used, in_array_part, keys_ok, lemma_count_used_fill, lemma_count_used_same,
    lemma_lookup_after_insert, lemma_walk_none, lemma_walk_rank, lookup, nodes_ok, used, valid_key,
    walk, Node, Table,
};
use crate::heap::hash::hash_bytes;
use crate::heap::string::Heap;
use crate::text::same_bytes;
use crate::value::Value;

verus! {

impl Heap {
    /// The hash of a normalized key.
    pub(crate) fn key_hash(&self, key: Value) -> (hash: u32)
        requires
            self.wf(),
            key != Value::Nil,
            valid_key(key, self.strings(), self.kinds()),
        ensures
            hash == hash_of(key_view(key, self.strings())),
    {
        match key {
            Value::Nil => 0,
            Value::Bool(flag) => {
                let mut byte: Vec<u8> = Vec::new();
                byte.push(if flag { 1u8 } else { 0u8 });
                proof {
                    assert(byte@ =~= seq![if flag { 1u8 } else { 0u8 }]);
                }
                hash_bytes(byte.as_slice())
            },
            Value::Int(number) => hash_bytes(to_le_bytes(number as u64, 8).as_slice()),
            Value::Float(bits) => hash_bytes(to_le_bytes(bits, 8).as_slice()),
            Value::Str(handle) => self.string(handle).hash(),
            Value::Table(handle) => hash_bytes(to_le_bytes(handle.index() as u64, 4).as_slice()),
            Value::Func(handle) => hash_bytes(to_le_bytes(handle.index() as u64, 4).as_slice()),
            Value::UserData(handle) => hash_bytes(to_le_bytes(handle.index() as u64, 4).as_slice()),
            Value::Thread(handle) => hash_bytes(to_le_bytes(handle.index() as u64, 4).as_slice()),
        }
    }

    /// Whether a node's key and a normalized key name the same slot.
    pub(crate) fn keys_equal(&self, left: Value, right: Value) -> (same: bool)
        requires
            self.wf(),
            right != Value::Nil,
            valid_key(left, self.strings(), self.kinds()),
            valid_key(right, self.strings(), self.kinds()),
        ensures
            same == (left != Value::Nil && key_view(left, self.strings()) == key_view(right, self.strings())),
    {
        match (left, right) {
            (Value::Bool(a), Value::Bool(b)) => a == b,
            (Value::Int(a), Value::Int(b)) => a == b,
            (Value::Float(a), Value::Float(b)) => a == b,
            (Value::Str(a), Value::Str(b)) => {
                a == b || same_bytes(self.string(a).as_bytes(), self.string(b).as_bytes())
            },
            (Value::Table(a), Value::Table(b)) => a == b,
            (Value::Func(a), Value::Func(b)) => a == b,
            (Value::UserData(a), Value::UserData(b)) => a == b,
            (Value::Thread(a), Value::Thread(b)) => a == b,
            _ => false,
        }
    }

    /// The node that holds `key`, if any does.
    #[verifier::rlimit(40)]
    pub(crate) fn find_node(&self, body: &Table, key: Value) -> (found: Option<usize>)
        requires
            self.wf(),
            body.ok(self.strings(), self.kinds()),
            key != Value::Nil,
            valid_key(key, self.strings(), self.kinds()),
        ensures
            match found {
                Some(j) => j < body.nodes@.len() && used(body.nodes@, j as int) && key_view(
                    body.nodes@[j as int].key,
                    self.strings(),
                ) == key_view(key, self.strings()),
                None => forall|j: int|
                    0 <= j < body.nodes@.len() && used(body.nodes@, j) ==> key_view(
                        #[trigger] body.nodes@[j].key,
                        self.strings(),
                    ) != key_view(key, self.strings()),
            },
    {
        let ghost strs = self.strings();
        let ghost nodes = body.nodes@;
        let ghost n = nodes.len() as int;
        let ghost k = key_view(key, strs);
        let hash = self.key_hash(key);
        let mut index = match body.main_position(hash) {
            Some(index) => index,
            None => return None,
        };
        let ghost h = index as int;
        let ghost g = if used(nodes, h) { body.homes@[h] } else { h };
        let ghost mut steps: nat = 0;
        proof {
            // A node that holds the key has this node as its home, and so this node heads a chain.
            assert forall|j: int| 0 <= j < n && used(nodes, j) && key_view(#[trigger] nodes[j].key, strs) == k implies body.homes@[j] == h
                && used(nodes, h) && body.homes@[h] == h by {}
        }
        loop
            invariant
                self.wf(),
                body.ok(strs, self.kinds()),
                strs == self.strings(),
                nodes == body.nodes@,
                n == nodes.len(),
                key != Value::Nil,
                valid_key(key, strs, self.kinds()),
                k == key_view(key, strs),
                0 <= h < n,
                g == (if used(nodes, h) { body.homes@[h] } else { h }),
                forall|j: int| 0 <= j < n && used(nodes, j) && key_view(#[trigger] nodes[j].key, strs) == k ==> body.homes@[j] == h
                    && used(nodes, h) && body.homes@[h] == h,
                walk(nodes, h, steps) == Some(index as int),
                index < n,
                steps < n,
                steps > 0 ==> used(nodes, h),
                used(nodes, h) ==> used(nodes, index as int) && body.homes@[index as int] == g && body.ranks@[index as int]
                    == body.ranks@[h] + steps,
                forall|t: nat| t < steps ==> #[trigger] walk(nodes, h, t) is Some && key_view(nodes[walk(nodes, h, t)->0].key, strs) != k,
            decreases n - steps,
        {
            if self.keys_equal(body.node_key(index), key) {
                return Some(index);
            }
            let ghost here = index as int;
            index = match body.node_next(index) {
                Some(next) => next,
                None => {
                    proof {
                        assert forall|j: int| 0 <= j < n && used(nodes, j) implies key_view(#[trigger] nodes[j].key, strs) != k by {
                            if key_view(nodes[j].key, strs) == k {
                                let r = body.ranks@[j];
                                assert(walk(nodes, h, r) == Some(j));
                                assert(body.ranks@[h] == 0);
                                if r < steps {
                                    assert(walk(nodes, h, r) is Some);
                                } else if r == steps {
                                } else {
                                    assert(walk(nodes, h, steps + 1) is None);
                                    lemma_walk_none(nodes, h, steps + 1, r);
                                }
                            }
                        }
                    }
                    return None;
                },
            };
            proof {
                assert(nodes[here].next is Some);
                assert(used(nodes, here)) by {
                    if !used(nodes, here) {
                        assert(nodes[here].value == Value::Nil && nodes[here].next is None);
                    }
                }
                assert(walk(nodes, h, steps + 1) == Some(index as int));
                assert(used(nodes, h)) by {
                    if steps == 0 {
                        assert(here == h);
                    }
                }
                assert(body.ranks@[index as int] == body.ranks@[here] + 1);
                assert forall|t: nat| t < steps + 1 implies #[trigger] walk(nodes, h, t) is Some && key_view(nodes[walk(nodes, h, t)->0].key, strs) != k by {
                    if t == steps {
                        assert(walk(nodes, h, t) == Some(here));
                    }
                }
                steps = steps + 1;
            }
        }
    }

    /// Puts a key that the table does not hold into the node part, if there is room without
    /// rebuilding: a free home, or a free node to chain or to move a squatter to. Answers
    /// whether it did; when it did not, what the table holds is unchanged.
    pub(crate) fn try_insert(&self, body: &mut Table, key: Value, value: Value) -> (inserted: bool)
        requires
            self.wf(),
            old(body).ok(self.strings(), self.kinds()),
            is_normal(key),
            valid_key(key, self.strings(), self.kinds()),
            !in_array_part(key_view(key, self.strings()), old(body).array@.len() as int),
            forall|j: int|
                0 <= j < old(body).nodes@.len() && used(old(body).nodes@, j) ==> key_view(
                    #[trigger] old(body).nodes@[j].key,
                    self.strings(),
                ) != key_view(key, self.strings()),
        ensures
            final(body).ok(self.strings(), self.kinds()),
            final(body).array@ == old(body).array@,
            final(body).nodes@.len() == old(body).nodes@.len(),
            inserted ==> forall|k: KeyView| #[trigger] final(body).get(self.strings(), k) == if k == key_view(key, self.strings()) {
                value
            } else {
                old(body).get(self.strings(), k)
            },
            inserted ==> count_used(final(body).nodes@) == count_used(old(body).nodes@) + 1,
            inserted ==> forall|j2: int|
                0 <= j2 < final(body).nodes@.len() && used(final(body).nodes@, j2) && key_view(
                    #[trigger] final(body).nodes@[j2].key,
                    self.strings(),
                ) != key_view(key, self.strings()) ==> exists|j: int|
                    0 <= j < old(body).nodes@.len() && used(old(body).nodes@, j) && key_view(old(body).nodes@[j].key, self.strings())
                        == key_view(final(body).nodes@[j2].key, self.strings()),
            !inserted ==> forall|k: KeyView| #[trigger] final(body).get(self.strings(), k) == old(body).get(self.strings(), k),
            !inserted ==> final(body).nodes@ == old(body).nodes@,
            !inserted ==> count_used(final(body).nodes@) == count_used(old(body).nodes@),
            !inserted ==> old(body).nodes@.len() == 0 || count_used(old(body).nodes@) == old(body).nodes@.len(),
    {
        let ghost strs = self.strings();
        let ghost kinds = self.kinds();
        let ghost nodes = body.nodes@;
        let ghost n = nodes.len() as int;
        let ghost homes = body.homes@;
        let ghost ranks = body.ranks@;
        let ghost start = *body;
        let hash = self.key_hash(key);
        let main = match body.main_position(hash) {
            Some(main) => main,
            None => return false,
        };
        proof {
            vstd::arithmetic::div_mod::lemma_mod_bound(hash as int, n);
        }
        if body.node_is_free(main) {
            body.put_node(main, key, value, None);
            body.homes = Ghost(homes.update(main as int, main as int));
            body.ranks = Ghost(ranks.update(main as int, 0));
            proof {
                lemma_insert_at_home(start, *body, strs, kinds, key, value, main as int);
            }
            return true;
        }
        let free = match body.take_free() {
            Some(free) => free,
            None => {
                proof {
                    super::store::lemma_count_used_all(nodes);
                }
                return false;
            },
        };
        let ghost taken = *body;
        let squatter = body.node_key(main);
        let squatter_hash = self.key_hash(squatter);
        let squatter_main = match body.main_position(squatter_hash) {
            Some(at) => at,
            None => {
                proof {
                    assert(false);
                }
                return false;
            },
        };
        proof {
            assert(squatter_main == homes[main as int]);
        }
        if squatter_main == main {
            // It belongs here; the new key chains after it.
            let after = body.node_next(main);
            body.put_node(free, key, value, after);
            body.set_node_next(main, Some(free));
            body.homes = Ghost(homes.update(free as int, main as int));
            body.ranks = Ghost(
                Seq::new(
                    n as nat,
                    |x: int|
                        if x == free {
                            1nat
                        } else if used(nodes, x) && homes[x] == main && x != main {
                            ranks[x] + 1
                        } else {
                            ranks[x]
                        },
                ),
            );
            proof {
                lemma_insert_after_head(start, taken, *body, strs, kinds, key, value, main as int, free as int);
            }
        } else {
            // It is only passing through. Move it aside and take its place.
            let mut previous = squatter_main;
            let ghost g = squatter_main as int;
            let ghost mut steps: nat = 0;
            proof {
                assert(used(nodes, g) && homes[g] == g);
                assert(ranks[main as int] >= 1);
            }
            loop
                invariant
                    body.nodes@ == nodes,
                    nodes_ok(nodes, start.free as int, start.log@, homes, ranks),
                    n == nodes.len(),
                    0 <= g < n,
                    used(nodes, g),
                    homes[g] == g,
                    used(nodes, main as int),
                    homes[main as int] == g,
                    walk(nodes, g, ranks[main as int]) == Some(main as int),
                    steps < ranks[main as int],
                    walk(nodes, g, steps) == Some(previous as int),
                    previous < n,
                ensures
                    walk(nodes, g, steps) == Some(previous as int),
                    previous < n,
                    nodes[previous as int].next == Some(main as u32),
                decreases ranks[main as int] - steps,
            {
                let next = body.node_next(previous);
                if next == Some(main) {
                    proof {
                        assert(n <= 0x8000_0000);
                        assert(nodes[previous as int].next is Some);
                    }
                    break;
                }
                proof {
                    super::store::lemma_walk_rank(nodes, start.free as int, start.log@, homes, ranks, g, steps);
                    if steps + 1 == ranks[main as int] {
                        assert(walk(nodes, g, steps + 1) == Some(main as int));
                    }
                }
                previous = match next {
                    Some(at) => at,
                    None => {
                        proof {
                            lemma_walk_none(nodes, g, steps + 1, ranks[main as int]);
                        }
                        return false;
                    },
                };
                proof {
                    steps = steps + 1;
                }
            }
            proof {
                super::store::lemma_walk_rank(nodes, start.free as int, start.log@, homes, ranks, g, steps);
            }
            body.set_node_next(previous, Some(free));
            let moved = body.node_value(main);
            let after = body.node_next(main);
            body.put_node(free, squatter, moved, after);
            body.put_node(main, key, value, None);
            body.homes = Ghost(homes.update(free as int, g).update(main as int, main as int));
            body.ranks = Ghost(ranks.update(free as int, ranks[main as int]).update(main as int, 0));
            proof {
                lemma_insert_moving(start, taken, *body, strs, kinds, key, value, main as int, previous as int, free as int);
            }
        }
        true
    }
}


/// The new key went into its home, which was free.
#[verifier::spinoff_prover]
#[verifier::rlimit(30)]
proof fn lemma_insert_at_home(start: Table, after: Table, strs: Seq<Seq<u8>>, kinds: Seq<bool>, key: Value, value: Value, main: int)
    requires
        start.ok(strs, kinds),
        is_normal(key),
        valid_key(key, strs, kinds),
        !in_array_part(key_view(key, strs), start.array@.len() as int),
        forall|j: int| 0 <= j < start.nodes@.len() && used(start.nodes@, j) ==> key_view(#[trigger] start.nodes@[j].key, strs) != key_view(key, strs),
        start.nodes@.len() > 0,
        main == hash_of(key_view(key, strs)) as int % start.nodes@.len() as int,
        0 <= main < start.nodes@.len(),
        !used(start.nodes@, main),
        after.nodes@ == start.nodes@.update(main, Node { key, value, next: None }),
        after.array@ == start.array@,
        after.free == start.free,
        after.log == start.log,
        after.homes@ == start.homes@.update(main, main),
        after.ranks@ == start.ranks@.update(main, 0),
    ensures
        after.ok(strs, kinds),
        forall|k: KeyView| #[trigger] after.get(strs, k) == if k == key_view(key, strs) {
            value
        } else {
            start.get(strs, k)
        },
        count_used(after.nodes@) == count_used(start.nodes@) + 1,
        forall|j2: int|
            0 <= j2 < after.nodes@.len() && used(after.nodes@, j2) && key_view(#[trigger] after.nodes@[j2].key, strs) != key_view(key, strs)
                ==> exists|j: int|
                0 <= j < start.nodes@.len() && used(start.nodes@, j) && key_view(start.nodes@[j].key, strs) == key_view(after.nodes@[j2].key, strs),
{
    let nodes = start.nodes@;
    let nodes2 = after.nodes@;
    let n = nodes.len() as int;
    let kv = key_view(key, strs);
    let node = Node { key, value, next: None };
    lemma_fill_home(nodes, start.free as int, start.log@, start.homes@, start.ranks@, main, node);
    lemma_count_used_fill(nodes, main, node);
    assert forall|j1: int, j2: int|
        0 <= j1 < n && 0 <= j2 < n && j1 != j2 && used(nodes2, j1) && used(nodes2, j2)
            implies key_view(#[trigger] nodes2[j1].key, strs) != key_view(#[trigger] nodes2[j2].key, strs) by {
        if j1 != main && j2 != main {
            assert(nodes2[j1] == nodes[j1] && nodes2[j2] == nodes[j2]);
        }
    }
    assert(nodes2[main] == node);
    assert(used(nodes2, main) && key_view(nodes2[main].key, strs) == kv && nodes2[main].value == value);
    let same = |x: int| x;
    assert forall|j: int| 0 <= j < n && used(nodes, j) implies {
        let j2 = #[trigger] same(j);
        &&& 0 <= j2 < nodes2.len()
        &&& used(nodes2, j2)
        &&& key_view(nodes2[j2].key, strs) == key_view(nodes[j].key, strs)
        &&& nodes2[j2].value == nodes[j].value
    } by {
        assert(j != main);
    }
    assert forall|j2: int| 0 <= j2 < n && used(nodes2, j2) && key_view(#[trigger] nodes2[j2].key, strs) != kv implies exists|j: int|
        0 <= j < n && used(nodes, j) && key_view(nodes[j].key, strs) == key_view(nodes2[j2].key, strs) by {
        assert(j2 != main);
        assert(nodes2[j2] == nodes[j2]);
        assert(used(nodes, j2) && key_view(nodes[j2].key, strs) == key_view(nodes2[j2].key, strs));
    }
    lemma_lookup_after_insert(start.array@, nodes, nodes2, strs, kv, value, same);
    assert(keys_ok(after.array@, nodes2, after.homes@, strs, kinds));
}

/// The new key went into a free node chained right behind its home.
#[verifier::spinoff_prover]
#[verifier::rlimit(30)]
proof fn lemma_insert_after_head(
    start: Table,
    taken: Table,
    after: Table,
    strs: Seq<Seq<u8>>,
    kinds: Seq<bool>,
    key: Value,
    value: Value,
    main: int,
    free: int,
)
    requires
        start.ok(strs, kinds),
        is_normal(key),
        valid_key(key, strs, kinds),
        !in_array_part(key_view(key, strs), start.array@.len() as int),
        forall|j: int| 0 <= j < start.nodes@.len() && used(start.nodes@, j) ==> key_view(#[trigger] start.nodes@[j].key, strs) != key_view(key, strs),
        main == hash_of(key_view(key, strs)) as int % start.nodes@.len() as int,
        0 <= main < start.nodes@.len(),
        used(start.nodes@, main),
        start.homes@[main] == main,
        taken.nodes@ == start.nodes@,
        start.free <= taken.free <= start.nodes@.len(),
        0 <= free < start.nodes@.len(),
        !used(start.nodes@, free),
        free == start.nodes@.len() - taken.free,
        forall|x: int| free < x < start.nodes@.len() ==> used(start.nodes@, x),
        after.nodes@ == start.nodes@.update(free, Node { key, value, next: start.nodes@[main].next }).update(
            main,
            Node { next: Some(free as u32), ..start.nodes@[main] },
        ),
        after.array@ == start.array@,
        after.free == taken.free,
        after.log == start.log,
        after.homes@ == start.homes@.update(free, main),
        after.ranks@ == Seq::new(
            start.nodes@.len(),
            |x: int|
                if x == free {
                    1nat
                } else if used(start.nodes@, x) && start.homes@[x] == main && x != main {
                    start.ranks@[x] + 1
                } else {
                    start.ranks@[x]
                },
        ),
    ensures
        after.ok(strs, kinds),
        forall|k: KeyView| #[trigger] after.get(strs, k) == if k == key_view(key, strs) {
            value
        } else {
            start.get(strs, k)
        },
        count_used(after.nodes@) == count_used(start.nodes@) + 1,
        forall|j2: int|
            0 <= j2 < after.nodes@.len() && used(after.nodes@, j2) && key_view(#[trigger] after.nodes@[j2].key, strs) != key_view(key, strs)
                ==> exists|j: int|
                0 <= j < start.nodes@.len() && used(start.nodes@, j) && key_view(start.nodes@[j].key, strs) == key_view(after.nodes@[j2].key, strs),
{
    let nodes = start.nodes@;
    let nodes2 = after.nodes@;
    let n = nodes.len() as int;
    let kv = key_view(key, strs);
    lemma_link_after_head(nodes, start.free as int, taken.free as int, start.log@, start.homes@, start.ranks@, main, free, key, value);
    assert(after.ranks@ =~= Seq::new(
        nodes.len(),
        |x: int|
            if x == free {
                1nat
            } else if used(nodes, x) && start.homes@[x] == main && x != main {
                start.ranks@[x] + 1
            } else {
                start.ranks@[x]
            },
    ));
    let node = Node { key, value, next: nodes[main].next };
    lemma_count_used_fill(nodes, free, node);
    lemma_count_used_same(nodes.update(free, node), nodes2);
    assert forall|j1: int, j2: int|
        0 <= j1 < n && 0 <= j2 < n && j1 != j2 && used(nodes2, j1) && used(nodes2, j2)
            implies key_view(#[trigger] nodes2[j1].key, strs) != key_view(#[trigger] nodes2[j2].key, strs) by {
        if j1 != free && j2 != free {
            assert(nodes2[j1].key == nodes[j1].key && nodes2[j2].key == nodes[j2].key);
        }
    }
    assert(used(nodes2, free) && key_view(nodes2[free].key, strs) == kv && nodes2[free].value == value);
    let same = |x: int| x;
    assert forall|j: int| 0 <= j < n && used(nodes, j) implies {
        let j2 = #[trigger] same(j);
        &&& 0 <= j2 < nodes2.len()
        &&& used(nodes2, j2)
        &&& key_view(nodes2[j2].key, strs) == key_view(nodes[j].key, strs)
        &&& nodes2[j2].value == nodes[j].value
    } by {
        assert(j != free);
    }
    assert forall|j2: int| 0 <= j2 < n && used(nodes2, j2) && key_view(#[trigger] nodes2[j2].key, strs) != kv implies exists|j: int|
        0 <= j < n && used(nodes, j) && key_view(nodes[j].key, strs) == key_view(nodes2[j2].key, strs) by {
        assert(j2 != free);
        assert(nodes2[j2].key == nodes[j2].key);
        assert(used(nodes, j2));
    }
    lemma_lookup_after_insert(start.array@, nodes, nodes2, strs, kv, value, same);
    assert(keys_ok(after.array@, nodes2, after.homes@, strs, kinds));
}

/// The new key took its home from a node of another chain, which moved to a free node.
#[verifier::spinoff_prover]
#[verifier::rlimit(60)]
proof fn lemma_insert_moving(
    start: Table,
    taken: Table,
    after: Table,
    strs: Seq<Seq<u8>>,
    kinds: Seq<bool>,
    key: Value,
    value: Value,
    main: int,
    p: int,
    free: int,
)
    requires
        start.ok(strs, kinds),
        is_normal(key),
        valid_key(key, strs, kinds),
        !in_array_part(key_view(key, strs), start.array@.len() as int),
        forall|j: int| 0 <= j < start.nodes@.len() && used(start.nodes@, j) ==> key_view(#[trigger] start.nodes@[j].key, strs) != key_view(key, strs),
        main == hash_of(key_view(key, strs)) as int % start.nodes@.len() as int,
        0 <= main < start.nodes@.len(),
        0 <= p < start.nodes@.len(),
        used(start.nodes@, main),
        start.homes@[main] != main,
        used(start.nodes@, p),
        start.homes@[p] == start.homes@[main],
        start.nodes@[p].next == Some(main as u32),
        taken.nodes@ == start.nodes@,
        start.free <= taken.free <= start.nodes@.len(),
        0 <= free < start.nodes@.len(),
        !used(start.nodes@, free),
        free == start.nodes@.len() - taken.free,
        forall|x: int| free < x < start.nodes@.len() ==> used(start.nodes@, x),
        after.nodes@ == start.nodes@.update(
            p,
            Node { next: Some(free as u32), ..start.nodes@[p] },
        ).update(free, Node { key: start.nodes@[main].key, value: start.nodes@[main].value, next: start.nodes@[main].next }).update(
            main,
            Node { key, value, next: None },
        ),
        after.array@ == start.array@,
        after.free == taken.free,
        after.log == start.log,
        after.homes@ == start.homes@.update(free, start.homes@[main]).update(main, main),
        after.ranks@ == start.ranks@.update(free, start.ranks@[main]).update(main, 0),
    ensures
        after.ok(strs, kinds),
        forall|k: KeyView| #[trigger] after.get(strs, k) == if k == key_view(key, strs) {
            value
        } else {
            start.get(strs, k)
        },
        count_used(after.nodes@) == count_used(start.nodes@) + 1,
        forall|j2: int|
            0 <= j2 < after.nodes@.len() && used(after.nodes@, j2) && key_view(#[trigger] after.nodes@[j2].key, strs) != key_view(key, strs)
                ==> exists|j: int|
                0 <= j < start.nodes@.len() && used(start.nodes@, j) && key_view(start.nodes@[j].key, strs) == key_view(after.nodes@[j2].key, strs),
{
    let nodes = start.nodes@;
    let nodes2 = after.nodes@;
    let n = nodes.len() as int;
    let kv = key_view(key, strs);
    assert(free != p && free != main && p != main);
    let moved = Node { key: nodes[main].key, value: nodes[main].value, next: nodes[main].next };
    assert(nodes2 =~= nodes.update(free, moved).update(p, Node { next: Some(free as u32), ..nodes[p] }).update(main, Node { key, value, next: None }));
    lemma_move_squatter(nodes, start.free as int, taken.free as int, start.log@, start.homes@, start.ranks@, main, p, free, key, value);
    let mid = nodes.update(free, moved);
    lemma_count_used_fill(nodes, free, moved);
    lemma_count_used_same(mid, nodes2);
    let to = |j: int| if j == main { free } else { j };
    assert forall|j1: int, j2: int|
        0 <= j1 < n && 0 <= j2 < n && j1 != j2 && used(nodes2, j1) && used(nodes2, j2)
            implies key_view(#[trigger] nodes2[j1].key, strs) != key_view(#[trigger] nodes2[j2].key, strs) by {
        let o1 = if j1 == free { main } else { j1 };
        let o2 = if j2 == free { main } else { j2 };
        if j1 != main && j2 != main {
            assert(nodes2[j1].key == nodes[o1].key);
            assert(nodes2[j2].key == nodes[o2].key);
        }
    }
    assert(used(nodes2, main) && key_view(nodes2[main].key, strs) == kv && nodes2[main].value == value);
    assert forall|j: int| 0 <= j < n && used(nodes, j) implies {
        let j2 = #[trigger] to(j);
        &&& 0 <= j2 < nodes2.len()
        &&& used(nodes2, j2)
        &&& key_view(nodes2[j2].key, strs) == key_view(nodes[j].key, strs)
        &&& nodes2[j2].value == nodes[j].value
    } by {
        assert(j != free);
    }
    assert forall|j2: int| 0 <= j2 < n && used(nodes2, j2) && key_view(#[trigger] nodes2[j2].key, strs) != kv implies exists|j: int|
        0 <= j < n && used(nodes, j) && key_view(nodes[j].key, strs) == key_view(nodes2[j2].key, strs) by {
        if j2 == free {
            assert(nodes2[free].key == nodes[main].key);
            assert(used(nodes, main));
            assert(key_view(nodes[main].key, strs) == key_view(nodes2[j2].key, strs));
        } else {
            assert(nodes2[j2].key == nodes[j2].key);
            assert(used(nodes, j2));
        }
    }
    lemma_lookup_after_insert(start.array@, nodes, nodes2, strs, kv, value, to);
    assert(keys_ok(after.array@, nodes2, after.homes@, strs, kinds)) by {
        assert forall|j: int| 0 <= j < n && used(nodes2, j) implies {
            &&& is_normal(#[trigger] nodes2[j].key)
            &&& valid_key(nodes2[j].key, strs, kinds)
            &&& after.homes@[j] == hash_of(key_view(nodes2[j].key, strs)) as int % n
            &&& !in_array_part(key_view(nodes2[j].key, strs), after.array@.len() as int)
        } by {
            if j == free {
                assert(nodes2[j].key == nodes[main].key);
            } else if j != main {
                assert(nodes2[j].key == nodes[j].key);
            }
        }
    }
}
} // verus!
