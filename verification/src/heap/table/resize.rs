//! Rebuilding a table around everything it holds, when a new key finds no free node.
use vstd::prelude::*;
use vstd::arithmetic::power2::{lemma2_to64, lemma2_to64_rest, pow2};

use super::key::{is_normal, key_view, KeyView};
use super::size::{
    best_array_size, best_array_spec, bucket_of, count_bucket, count_upto, lemma_best_is_a_prefix,
    lemma_count_all_ints, lemma_count_bucket_bound, lemma_count_upto_bounds, lemma_count_upto_none,
    lemma_count_upto_prefix, lemma_count_upto_step, lemma_nodes_for_room, lemma_pow2_le,
    lemma_prefix_counts, nodes_for_spec, prefix_sum, slice_choice,
};
use super::store::{count_used, entries_get, entries_ok, in_array_part, used, valid_key, Table};
use crate::heap::string::Heap;
use crate::value::Value;

verus! {

/// What a list of entries with distinct keys holds after one more entry, whose key it does not
/// hold: that entry's value at its key, and what it held everywhere else.
pub proof fn lemma_entries_get_push(e: Seq<(Value, Value)>, strs: Seq<Seq<u8>>, x: (Value, Value))
    requires
        forall|i: int, j: int|
            0 <= i < e.len() && 0 <= j < e.len() && i != j ==> key_view(#[trigger] e[i].0, strs) != key_view(
                #[trigger] e[j].0,
                strs,
            ),
        forall|i: int| 0 <= i < e.len() ==> key_view(#[trigger] e[i].0, strs) != key_view(x.0, strs),
    ensures
        forall|k: KeyView| #[trigger] entries_get(e.push(x), strs, k) == if k == key_view(x.0, strs) {
            x.1
        } else {
            entries_get(e, strs, k)
        },
{
    let e2 = e.push(x);
    assert forall|k: KeyView| #[trigger] entries_get(e2, strs, k) == if k == key_view(x.0, strs) {
        x.1
    } else {
        entries_get(e, strs, k)
    } by {
        if k == key_view(x.0, strs) {
            assert(key_view(e2[e.len() as int].0, strs) == k);
            let c = choose|i: int| 0 <= i < e2.len() && key_view(e2[i].0, strs) == k;
            if c < e.len() {
                assert(e2[c] == e[c]);
            }
        } else if exists|i: int| 0 <= i < e.len() && key_view(e[i].0, strs) == k {
            let w = choose|i: int| 0 <= i < e.len() && key_view(e[i].0, strs) == k;
            assert(e2[w] == e[w]);
            let c = choose|i: int| 0 <= i < e2.len() && key_view(e2[i].0, strs) == k;
            assert(c != e.len());
            assert(e2[c] == e[c]);
            if c != w {
                assert(key_view(e[c].0, strs) != key_view(e[w].0, strs));
            }
        } else {
            if exists|i: int| 0 <= i < e2.len() && key_view(e2[i].0, strs) == k {
                let c = choose|i: int| 0 <= i < e2.len() && key_view(e2[i].0, strs) == k;
                if c < e.len() {
                    assert(e2[c] == e[c]);
                }
            }
        }
    }
}

/// A list of live entries with distinct keys holds something at exactly as many keys as it
/// has entries.
pub proof fn lemma_entries_count(e: Seq<(Value, Value)>, strs: Seq<Seq<u8>>, strings: Seq<bool>)
    requires
        entries_ok(e, strs, strings),
    ensures
        Set::new(|k: KeyView| entries_get(e, strs, k) != Value::Nil).finite(),
        Set::new(|k: KeyView| entries_get(e, strs, k) != Value::Nil).len() == e.len(),
{
    let ks = e.map_values(|x: (Value, Value)| key_view(x.0, strs));
    assert forall|i: int, j: int| 0 <= i < ks.len() && 0 <= j < ks.len() && i != j implies ks[i] != ks[j] by {
        assert(ks[i] == key_view(e[i].0, strs));
        assert(ks[j] == key_view(e[j].0, strs));
    }
    assert(ks.no_duplicates());
    ks.unique_seq_to_set();
    vstd::seq_lib::seq_to_set_is_finite(ks);
    let held = Set::new(|k: KeyView| entries_get(e, strs, k) != Value::Nil);
    assert forall|k: KeyView| ks.to_set().contains(k) <==> held.contains(k) by {
        if ks.contains(k) {
            let i = choose|i: int| 0 <= i < ks.len() && ks[i] == k;
            assert(key_view(e[i].0, strs) == k);
            let c = choose|i: int| 0 <= i < e.len() && key_view(e[i].0, strs) == k;
            assert(e[c].1 != Value::Nil);
        }
        if held.contains(k) {
            let i = choose|i: int| 0 <= i < e.len() && key_view(e[i].0, strs) == k;
            assert(ks[i] == k);
        }
    }
    assert(ks.to_set() =~= held);
}

impl Heap {
    /// Rebuilds both parts of a table around everything it holds plus a key that did not fit:
    /// the array part as large as still pays for itself, the node part just large enough for
    /// the rest.
    #[verifier::rlimit(80)]
    pub(crate) fn refresh(&self, body: &mut Table, key: Value, value: Value)
        requires
            self.wf(),
            old(body).ok(self.strings(), self.kinds()),
            is_normal(key),
            valid_key(key, self.strings(), self.kinds()),
            value != Value::Nil,
            !in_array_part(key_view(key, self.strings()), old(body).array@.len() as int),
            forall|j: int|
                0 <= j < old(body).nodes@.len() && used(old(body).nodes@, j) ==> key_view(
                    #[trigger] old(body).nodes@[j].key,
                    self.strings(),
                ) != key_view(key, self.strings()),
            old(body).held(self.strings()).len() < 0x3fff_ffff,
        ensures
            final(body).ok(self.strings(), self.kinds()),
            forall|k: KeyView| #[trigger] final(body).get(self.strings(), k) == if k == key_view(key, self.strings()) {
                value
            } else {
                old(body).get(self.strings(), k)
            },
    {
        let ghost strs = self.strings();
        let ghost kinds = self.kinds();
        let ghost before = *body;
        let ghost kv = key_view(key, strs);
        let mut entries = body.drain_all(Ghost(strs), Ghost(kinds));
        let ghost drained = entries@;
        proof {
            lemma_entries_count(drained, strs, kinds);
            assert(Set::new(|k: KeyView| entries_get(drained, strs, k) != Value::Nil) =~= before.held(strs));
            assert(before.get(strs, kv) == Value::Nil);
            assert forall|i: int| 0 <= i < drained.len() implies key_view(#[trigger] drained[i].0, strs) != kv by {
                if key_view(drained[i].0, strs) == kv {
                    let c = choose|j: int| 0 <= j < drained.len() && key_view(drained[j].0, strs) == kv;
                    assert(drained[c].1 != Value::Nil);
                    assert(entries_get(drained, strs, kv) == before.get(strs, kv));
                }
            }
            lemma_entries_get_push(drained, strs, (key, value));
        }
        entries.push((key, value));
        proof {
            let e = entries@;
            assert(e == drained.push((key, value)));
            assert forall|i: int| 0 <= i < e.len() implies #[trigger] e[i].1 != Value::Nil && is_normal(e[i].0) && valid_key(
                e[i].0,
                strs,
                kinds,
            ) by {
                if i < drained.len() {
                    assert(e[i] == drained[i]);
                }
            }
            assert forall|i: int, j: int|
                0 <= i < e.len() && 0 <= j < e.len() && i != j implies key_view(#[trigger] e[i].0, strs) != key_view(
                    #[trigger] e[j].0,
                    strs,
                ) by {
                if i < drained.len() {
                    assert(e[i] == drained[i]);
                }
                if j < drained.len() {
                    assert(e[j] == drained[j]);
                }
            }
            assert(entries_ok(e, strs, kinds));
        }
        // How many integer keys fall in each power-of-two slice.
        let mut counts: Vec<usize> = Vec::new();
        while counts.len() < 64
            invariant
                counts@.len() <= 64,
                forall|b: int| 0 <= b < counts@.len() ==> counts@[b] == 0,
            decreases 64 - counts@.len(),
        {
            counts.push(0);
        }
        let mut integers: usize = 0;
        let mut i: usize = 0;
        proof {
            assert forall|b: int| 0 <= b < 64 implies #[trigger] counts@[b] == count_bucket(entries@.take(0), b as nat) by {
                assert(entries@.take(0).len() == 0);
            }
            assert(entries@.take(0).len() == 0);
        }
        while i < entries.len()
            invariant
                i <= entries@.len(),
                entries@.len() < 0x4000_0000,
                counts@.len() == 64,
                forall|b: int| 0 <= b < 64 ==> #[trigger] counts@[b] == count_bucket(entries@.take(i as int), b as nat),
                integers == count_upto(entries@.take(i as int), i64::MAX as int),
            decreases entries@.len() - i,
        {
            proof {
                lemma_count_upto_step(entries@, i64::MAX as int, i as int);
                lemma_count_upto_bounds(entries@.take(i + 1), i64::MAX as int, i64::MAX as int);
            }
            let (entry_key, _) = entries[i];
            if let Value::Int(number) = entry_key {
                if let Some(bucket) = bucket_of(number) {
                    proof {
                        lemma_count_bucket_bound(entries@.take(i + 1), bucket as nat);
                        assert(count_bucket(entries@.take(i + 1), bucket as nat) == count_bucket(entries@.take(i as int), bucket as nat) + 1);
                    }
                    let count = counts[bucket];
                    counts.set(bucket, count + 1);
                    integers += 1;
                    proof {
                        assert forall|b: int| 0 <= b < 64 implies #[trigger] counts@[b] == count_bucket(entries@.take(i + 1), b as nat) by {
                            assert(count_bucket(entries@.take(i + 1), b as nat) == count_bucket(entries@.take(i as int), b as nat) + if b == bucket {
                                1int
                            } else {
                                0int
                            });
                        }
                    }
                } else {
                    proof {
                        if number >= 1 {
                            super::size::lemma_bucket_is_ceiling_log(number as int);
                        }
                        assert forall|b: int| 0 <= b < 64 implies #[trigger] counts@[b] == count_bucket(entries@.take(i + 1), b as nat) by {
                            assert(count_bucket(entries@.take(i + 1), b as nat) == count_bucket(entries@.take(i as int), b as nat));
                        }
                    }
                }
            } else {
                proof {
                    assert forall|b: int| 0 <= b < 64 implies #[trigger] counts@[b] == count_bucket(entries@.take(i + 1), b as nat) by {
                        assert(count_bucket(entries@.take(i + 1), b as nat) == count_bucket(entries@.take(i as int), b as nat));
                    }
                }
            }
            i += 1;
        }
        let ghost e = entries@;
        proof {
            assert(e.take(e.len() as int) =~= e);
            lemma2_to64_rest();
            lemma_prefix_counts(e, counts@, 63);
            lemma_count_all_ints(e, pow2(63) as int);
            lemma_count_upto_bounds(e, i64::MAX as int, i64::MAX as int);
        }
        let (array_size, in_array) = best_array_size(counts.as_slice(), integers);
        proof {
            lemma_best_is_a_prefix(counts@, integers as int, 0, 0, (0, 0));
            let r = best_array_spec(counts@, integers as int);
            if r == (0int, 0int) {
                lemma_count_upto_none(e, 0);
            } else {
                let p = choose|p: int| 0 <= p < counts@.len() && p < 63 && p < usize::BITS && r == #[trigger] slice_choice(counts@, p);
                lemma_prefix_counts(e, counts@, p as nat);
                lemma_pow2_le(p as nat, 62);
                lemma2_to64_rest();
            }
            assert(array_size < i64::MAX);
            assert(in_array == count_upto(e, array_size as int));
            lemma_count_upto_bounds(e, array_size as int, array_size as int);
        }
        let hash_count = entries.len() - in_array;
        body.rebuild(array_size, hash_count);
        let ghost n = body.nodes@.len();
        proof {
            if hash_count > 0 {
                lemma_nodes_for_room(hash_count as int);
            }
            assert(e.take(0).len() == 0);
            assert(count_upto(e.take(0), array_size as int) == 0);
            assert forall|k: KeyView| #[trigger] body.get(strs, k) == entries_get(e.take(0), strs, k) by {
                if in_array_part(k, body.array@.len() as int) {
                    assert(body.array@[k->Int_0 - 1] == Value::Nil);
                }
                if exists|j: int| 0 <= j < body.nodes@.len() && used(body.nodes@, j) && key_view(body.nodes@[j].key, strs) == k {
                    let j = choose|j: int| 0 <= j < body.nodes@.len() && used(body.nodes@, j) && key_view(body.nodes@[j].key, strs) == k;
                    lemma_used_counted(body.nodes@, j);
                }
            }
            assert forall|j: int| 0 <= j < body.nodes@.len() && used(body.nodes@, j) implies exists|t: int|
                0 <= t < 0 && key_view(#[trigger] body.nodes@[j].key, strs) == key_view(e[t].0, strs) by {
                lemma_used_counted(body.nodes@, j);
            }
        }
        let mut at: usize = 0;
        while at < entries.len()
            invariant
                self.wf(),
                strs == self.strings(),
                kinds == self.kinds(),
                e == entries@,
                entries_ok(e, strs, kinds),
                e.len() < 0x4000_0000,
                at <= e.len(),
                body.ok(strs, kinds),
                body.array@.len() == array_size,
                body.nodes@.len() == n,
                hash_count > 0 ==> n > hash_count,
                hash_count == e.len() - count_upto(e, array_size as int),
                count_used(body.nodes@) == at - count_upto(e.take(at as int), array_size as int),
                forall|k: KeyView| #[trigger] body.get(strs, k) == entries_get(e.take(at as int), strs, k),
                forall|j: int|
                    0 <= j < body.nodes@.len() && used(body.nodes@, j) ==> exists|t: int|
                        0 <= t < at && key_view(#[trigger] body.nodes@[j].key, strs) == key_view(e[t].0, strs),
            decreases e.len() - at,
        {
            let (entry_key, entry_value) = entries[at];
            let ghost prev = *body;
            let ghost x = e[at as int];
            let ghost xv = key_view(x.0, strs);
            proof {
                lemma_count_upto_step(e, array_size as int, at as int);
                lemma_count_upto_prefix(e, array_size as int, at + 1);
                assert(e.take(at + 1) =~= e.take(at as int).push(x));
                assert forall|t: int| 0 <= t < e.take(at as int).len() implies key_view(#[trigger] e.take(at as int)[t].0, strs) != xv by {
                    assert(e.take(at as int)[t] == e[t]);
                }
                assert forall|s: int, t: int|
                    0 <= s < e.take(at as int).len() && 0 <= t < e.take(at as int).len() && s != t implies key_view(
                        #[trigger] e.take(at as int)[s].0,
                        strs,
                    ) != key_view(#[trigger] e.take(at as int)[t].0, strs) by {
                    assert(e.take(at as int)[s] == e[s]);
                    assert(e.take(at as int)[t] == e[t]);
                }
                lemma_entries_get_push(e.take(at as int), strs, x);
            }
            if body.array_set(entry_key, entry_value) {
                proof {
                    lemma_array_store(prev, *body, strs, kinds, x.0, x.1);
                    assert forall|j: int| 0 <= j < body.nodes@.len() && used(body.nodes@, j) implies exists|t: int|
                        0 <= t < at + 1 && key_view(#[trigger] body.nodes@[j].key, strs) == key_view(e[t].0, strs) by {
                        let t = choose|t: int| 0 <= t < at && key_view(prev.nodes@[j].key, strs) == key_view(e[t].0, strs);
                    }
                }
            } else {
                proof {
                    assert(!in_array_part(xv, body.array@.len() as int));
                    assert forall|j: int| 0 <= j < body.nodes@.len() && used(body.nodes@, j) implies key_view(
                        #[trigger] body.nodes@[j].key,
                        strs,
                    ) != xv by {
                        let t = choose|t: int| 0 <= t < at && key_view(body.nodes@[j].key, strs) == key_view(e[t].0, strs);
                        assert(t != at);
                    }
                    assert(is_normal(x.0) && valid_key(x.0, strs, kinds));
                }
                let inserted = self.try_insert(body, entry_key, entry_value);
                proof {
                    if !inserted {
                        assert(count_used(prev.nodes@) < n);
                        assert(false);
                    }
                    assert forall|j: int| 0 <= j < body.nodes@.len() && used(body.nodes@, j) implies exists|t: int|
                        0 <= t < at + 1 && key_view(#[trigger] body.nodes@[j].key, strs) == key_view(e[t].0, strs) by {
                        if key_view(body.nodes@[j].key, strs) != xv {
                            let o = choose|o: int|
                                0 <= o < prev.nodes@.len() && used(prev.nodes@, o) && key_view(prev.nodes@[o].key, strs) == key_view(
                                    body.nodes@[j].key,
                                    strs,
                                );
                            let t = choose|t: int| 0 <= t < at && key_view(prev.nodes@[o].key, strs) == key_view(e[t].0, strs);
                        }
                    }
                }
            }
            at += 1;
        }
        proof {
            assert(e.take(e.len() as int) =~= e);
        }
    }
}

/// A used node is counted, so some node is when any is used.
proof fn lemma_used_counted(nodes: Seq<super::store::Node>, j: int)
    requires
        0 <= j < nodes.len(),
        used(nodes, j),
    ensures
        count_used(nodes) > 0,
    decreases nodes.len(),
{
    if j < nodes.len() - 1 {
        assert(nodes.drop_last()[j] == nodes[j]);
        lemma_used_counted(nodes.drop_last(), j);
    }
}

/// Storing a value in the array part at an integer key keeps the table well formed, and
/// changes what it holds at that key alone.
pub(crate) proof fn lemma_array_store(prev: Table, after: Table, strs: Seq<Seq<u8>>, kinds: Seq<bool>, key: Value, value: Value)
    requires
        prev.ok(strs, kinds),
        key matches Value::Int(number) && after.array@ == prev.array@.update(number - 1, value) && 1 <= number
            <= prev.array@.len(),
        after.nodes@ == prev.nodes@,
        after.free == prev.free,
        after.log == prev.log,
        after.homes == prev.homes,
        after.ranks == prev.ranks,
    ensures
        after.ok(strs, kinds),
        count_used(after.nodes@) == count_used(prev.nodes@),
        forall|k: KeyView| #[trigger] after.get(strs, k) == if k == key_view(key, strs) {
            value
        } else {
            prev.get(strs, k)
        },
{
    assert(after.array@.len() == prev.array@.len());
    assert forall|k: KeyView| #[trigger] after.get(strs, k) == if k == key_view(key, strs) {
        value
    } else {
        prev.get(strs, k)
    } by {
        if in_array_part(k, prev.array@.len() as int) {
            if k != key_view(key, strs) {
                assert(after.array@[k->Int_0 - 1] == prev.array@[k->Int_0 - 1]);
            }
        }
    }
}

} // verus!
