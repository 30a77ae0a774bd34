//! The intern table: open addressing with linear probing over a power-of-two table.
use vstd::prelude::*;
use vstd::arithmetic::power2::{lemma_pow2_strictly_increases, pow2, lemma_pow2_pos};

use super::handle::StrRef;
use super::hash::string_hash;
use super::string::is_short;

verus! {

/// The slot a string's probe starts at.
pub(crate) open spec fn home(bytes: Seq<u8>, n: int) -> int {
    (string_hash(bytes) as int) % n
}

/// The `d`th slot of a probe that starts at `h`.
pub(crate) open spec fn probe(h: int, d: int, n: int) -> int {
    (h + d) % n
}

/// How many steps a probe from `h` takes to reach `k`.
pub(crate) open spec fn distance(h: int, k: int, n: int) -> int {
    (k - h + n) % n
}

pub(crate) open spec fn count_some(t: Seq<Option<StrRef>>) -> nat
    decreases t.len(),
{
    if t.len() == 0 {
        0
    } else {
        count_some(t.drop_last()) + if t.last() is Some {
            1nat
        } else {
            0nat
        }
    }
}

/// Every entry names a short string, and every slot between the entry's home and the entry
/// is taken, so a probe from the home finds it before any empty slot.
pub(crate) open spec fn entries_ok(strs: Seq<Seq<u8>>, t: Seq<Option<StrRef>>) -> bool {
    forall|k: int|
        0 <= k < t.len() && #[trigger] t[k] is Some ==> {
            let e = t[k]->Some_0;
            let h = home(strs[e.id() as int], t.len() as int);
            &&& e.id() < strs.len()
            &&& is_short(strs[e.id() as int])
            &&& forall|d: int| 0 <= d < distance(h, k, t.len() as int) ==> #[trigger] t[probe(
                h,
                d,
                t.len() as int,
            )] is Some
        }
}

/// No two entries hold equal bytes.
pub(crate) open spec fn contents_distinct(strs: Seq<Seq<u8>>, t: Seq<Option<StrRef>>) -> bool {
    forall|k1: int, k2: int|
        0 <= k1 < t.len() && 0 <= k2 < t.len() && k1 != k2 && #[trigger] t[k1] is Some
            && #[trigger] t[k2] is Some ==> strs[t[k1]->Some_0.id() as int] != strs[t[k2]->Some_0.id() as int]
}

/// The intern table holds object `i`.
pub(crate) open spec fn holds(t: Seq<Option<StrRef>>, i: int) -> bool {
    exists|k: int| 0 <= k < t.len() && t[k] == Some(StrRef(i as u32))
}



pub(crate) proof fn lemma_mask(x: usize, n: usize, log: nat)
    requires
        n == pow2(log),
    ensures
        x & ((n - 1) as usize) == x % n,
{
    vstd::layout::unsigned_int_max_values();
    if log >= usize::BITS {
        if log > usize::BITS {
            lemma_pow2_strictly_increases(usize::BITS as nat, log);
        }
        assert(false);
    }
    lemma_pow2_pos(log);
    vstd::bits::lemma_usize_low_bits_mask_is_mod(x, log);
}

pub(crate) proof fn lemma_probe_step(h: int, d: int, n: int)
    requires
        n > 0,
        0 <= h,
        0 <= d,
    ensures
        (probe(h, d, n) + 1) % n == probe(h, d + 1, n),
{
    vstd::arithmetic::div_mod::lemma_add_mod_noop(h + d, 1, n);
    vstd::arithmetic::div_mod::lemma_mod_twice(h + d, n);
    if n == 1 {
        assert(1int % 1 == 0);
    } else {
        vstd::arithmetic::div_mod::lemma_small_mod(1, n as nat);
    }
    vstd::arithmetic::div_mod::lemma_mod_bound(h + d, n);
    vstd::arithmetic::div_mod::lemma_add_mod_noop((h + d) % n, 1, n);
}

pub(crate) proof fn lemma_distance(h: int, k: int, n: int)
    requires
        0 <= h < n,
        0 <= k < n,
    ensures
        0 <= distance(h, k, n) < n,
        probe(h, distance(h, k, n), n) == k,
{
    if k >= h {
        vstd::arithmetic::div_mod::lemma_mod_add_multiples_vanish(k - h, n);
        vstd::arithmetic::div_mod::lemma_small_mod((k - h) as nat, n as nat);
        vstd::arithmetic::div_mod::lemma_small_mod(k as nat, n as nat);
    } else {
        vstd::arithmetic::div_mod::lemma_small_mod((k - h + n) as nat, n as nat);
        vstd::arithmetic::div_mod::lemma_mod_add_multiples_vanish(k, n);
        vstd::arithmetic::div_mod::lemma_small_mod(k as nat, n as nat);
    }
}

pub(crate) proof fn lemma_probe_distance(h: int, d: int, n: int)
    requires
        0 <= h < n,
        0 <= d < n,
    ensures
        0 <= probe(h, d, n) < n,
        distance(h, probe(h, d, n), n) == d,
{
    vstd::arithmetic::div_mod::lemma_mod_bound(h + d, n);
    if h + d < n {
        vstd::arithmetic::div_mod::lemma_small_mod((h + d) as nat, n as nat);
        vstd::arithmetic::div_mod::lemma_mod_add_multiples_vanish(d, n);
        vstd::arithmetic::div_mod::lemma_small_mod(d as nat, n as nat);
    } else {
        vstd::arithmetic::div_mod::lemma_mod_sub_multiples_vanish(h + d, n);
        vstd::arithmetic::div_mod::lemma_small_mod((h + d - n) as nat, n as nat);
        vstd::arithmetic::div_mod::lemma_small_mod(d as nat, n as nat);
    }
}

pub(crate) proof fn lemma_count_bound(t: Seq<Option<StrRef>>)
    ensures
        count_some(t) <= t.len(),
        count_some(t) == t.len() ==> forall|k: int| 0 <= k < t.len() ==> #[trigger] t[k] is Some,
    decreases t.len(),
{
    if t.len() > 0 {
        lemma_count_bound(t.drop_last());
        assert forall|k: int| 0 <= k < t.len() && count_some(t) == t.len() implies #[trigger] t[k] is Some by {
            if k < t.len() - 1 {
                assert(t.drop_last()[k] == t[k]);
            }
        }
    }
}

pub(crate) proof fn lemma_count_update(t: Seq<Option<StrRef>>, k: int, x: StrRef)
    requires
        0 <= k < t.len(),
        t[k] is None,
    ensures
        count_some(t.update(k, Some(x))) == count_some(t) + 1,
    decreases t.len(),
{
    let u = t.update(k, Some(x));
    if k == t.len() - 1 {
        assert(u.drop_last() =~= t.drop_last());
    } else {
        assert(u.drop_last() =~= t.drop_last().update(k, Some(x)));
        lemma_count_update(t.drop_last(), k, x);
    }
}

pub(crate) proof fn lemma_count_empty(t: Seq<Option<StrRef>>)
    requires
        forall|k: int| 0 <= k < t.len() ==> #[trigger] t[k] is None,
    ensures
        count_some(t) == 0,
    decreases t.len(),
{
    if t.len() > 0 {
        lemma_count_empty(t.drop_last());
    }
}

/// A probe from `h` that has found only taken slots for `d` steps has not yet gone all the way round.
pub(crate) proof fn lemma_probe_not_full(t: Seq<Option<StrRef>>, h: int, d: int)
    requires
        0 <= h < t.len(),
        0 <= d,
        count_some(t) < t.len(),
        forall|j: int| 0 <= j < d ==> #[trigger] t[probe(h, j, t.len() as int)] is Some,
    ensures
        d < t.len(),
{
    let n = t.len() as int;
    if d >= n {
        assert forall|k: int| 0 <= k < n implies #[trigger] t[k] is Some by {
            lemma_distance(h, k, n);
            assert(t[probe(h, distance(h, k, n), n)] is Some);
        }
        lemma_count_bound(t);
        lemma_count_all(t);
    }
}

pub(crate) proof fn lemma_count_all(t: Seq<Option<StrRef>>)
    requires
        forall|k: int| 0 <= k < t.len() ==> #[trigger] t[k] is Some,
    ensures
        count_some(t) == t.len(),
    decreases t.len(),
{
    if t.len() > 0 {
        lemma_count_all(t.drop_last());
    }
}

/// Puts `handle` into the first empty slot of its probe, and answers which slot that was.
pub(crate) fn place(
    table: &mut Vec<Option<StrRef>>,
    handle: StrRef,
    hash: u32,
    Ghost(strs): Ghost<Seq<Seq<u8>>>,
    Ghost(log): Ghost<nat>,
) -> (k: usize)
    requires
        old(table)@.len() == pow2(log),
        count_some(old(table)@) < old(table)@.len(),
        entries_ok(strs, old(table)@),
        handle.id() < strs.len(),
        is_short(strs[handle.id() as int]),
        hash == string_hash(strs[handle.id() as int]),
    ensures
        k < old(table)@.len(),
        old(table)@[k as int] is None,
        final(table)@ == old(table)@.update(k as int, Some(handle)),
        entries_ok(strs, final(table)@),
        count_some(final(table)@) == count_some(old(table)@) + 1,
{
    let ghost t = table@;
    let n = table.len();
    proof {
        lemma_pow2_pos(log);
        lemma_mask(hash as usize, n, log);
        lemma_mask(0, n, log);
    }
    let mask = n - 1;
    let mut index = hash as usize & mask;
    let ghost h = home(strs[handle.id() as int], n as int);
    let ghost mut d: int = 0;
    proof {
        let sh = string_hash(strs[handle.id() as int]) as int;
        vstd::arithmetic::div_mod::lemma_mod_bound(sh, n as int);
        vstd::arithmetic::div_mod::lemma_mod_twice(sh, n as int);
        assert(index as int == sh % (n as int));
        assert(probe(h, 0, n as int) == h % (n as int));
    }

    while table[index].is_some()
        invariant
            table@ == t,
            n == t.len(),
            mask == n - 1,
            n == pow2(log),
            count_some(t) < n,
            0 <= h < n,
            0 <= d < n,
            index as int == probe(h, d, n as int),
            forall|j: int| 0 <= j < d ==> #[trigger] t[probe(h, j, n as int)] is Some,
        decreases n - d,
    {
        proof {
            lemma_probe_step(h, d, n as int);
            lemma_mask((index + 1) as usize, n, log);
            lemma_probe_not_full(t, h, d + 1);
        }
        index = (index + 1) & mask;
        proof {
            d = d + 1;
        }
    }

    table.set(index, Some(handle));
    proof {
        lemma_probe_distance(h, d, n as int);
        lemma_count_update(t, index as int, handle);
        let u = table@;
        assert forall|k: int| 0 <= k < u.len() && #[trigger] u[k] is Some implies {
            let e = u[k]->Some_0;
            let hk = home(strs[e.id() as int], u.len() as int);
            &&& e.id() < strs.len()
            &&& is_short(strs[e.id() as int])
            &&& forall|j: int| 0 <= j < distance(hk, k, u.len() as int) ==> #[trigger] u[probe(
                hk,
                j,
                u.len() as int,
            )] is Some
        } by {
            let e = u[k]->Some_0;
            let hk = home(strs[e.id() as int], u.len() as int);
            if k == index {
                assert forall|j: int| 0 <= j < distance(hk, k, u.len() as int) implies #[trigger] u[probe(
                    hk,
                    j,
                    u.len() as int,
                )] is Some by {
                    assert(t[probe(h, j, n as int)] is Some);
                }
            } else {
                assert(t[k] is Some);
                assert forall|j: int| 0 <= j < distance(hk, k, u.len() as int) implies #[trigger] u[probe(
                    hk,
                    j,
                    u.len() as int,
                )] is Some by {
                    assert(t[probe(hk, j, t.len() as int)] is Some);
                }
            }
        }
    }
    index
}


/// Adding an object leaves the table's facts about the others as they were.
pub(crate) proof fn lemma_table_push(strs: Seq<Seq<u8>>, x: Seq<u8>, t: Seq<Option<StrRef>>)
    requires
        entries_ok(strs, t),
        contents_distinct(strs, t),
    ensures
        entries_ok(strs.push(x), t),
        contents_distinct(strs.push(x), t),
        forall|k: int| 0 <= k < t.len() && #[trigger] t[k] is Some ==> t[k]->Some_0.id() < strs.len(),
{
    let s2 = strs.push(x);
    assert forall|k: int| 0 <= k < t.len() && #[trigger] t[k] is Some implies {
        let e = t[k]->Some_0;
        &&& e.id() < s2.len()
        &&& s2[e.id() as int] == strs[e.id() as int]
    } by {}
    assert forall|k1: int, k2: int|
        0 <= k1 < t.len() && 0 <= k2 < t.len() && k1 != k2 && #[trigger] t[k1] is Some
            && #[trigger] t[k2] is Some implies s2[t[k1]->Some_0.id() as int] != s2[t[k2]->Some_0.id() as int] by {}
}

/// Filling an empty slot with a string whose bytes no entry holds keeps the entries distinct,
/// keeps every entry, and adds the new one.
pub(crate) proof fn lemma_insert(strs: Seq<Seq<u8>>, t: Seq<Option<StrRef>>, k: int, e: StrRef)
    requires
        0 <= k < t.len(),
        t[k] is None,
        contents_distinct(strs, t),
        forall|j: int| 0 <= j < t.len() && #[trigger] t[j] is Some
            ==> strs[t[j]->Some_0.id() as int] != strs[e.id() as int],
    ensures
        contents_distinct(strs, t.update(k, Some(e))),
        holds(t.update(k, Some(e)), e.id() as int),
        forall|i: int| holds(t, i) ==> holds(t.update(k, Some(e)), i),
{
    let u = t.update(k, Some(e));
    assert(u[k] == Some(StrRef(e.id() as u32)));
    assert forall|i: int| holds(t, i) implies holds(u, i) by {
        let j = choose|j: int| 0 <= j < t.len() && t[j] == Some(StrRef(i as u32));
        assert(u[j] == t[j]);
    }
    assert forall|k1: int, k2: int|
        0 <= k1 < u.len() && 0 <= k2 < u.len() && k1 != k2 && #[trigger] u[k1] is Some
            && #[trigger] u[k2] is Some implies strs[u[k1]->Some_0.id() as int] != strs[u[k2]->Some_0.id() as int] by {
        if k1 != k && k2 != k {
            assert(t[k1] is Some && t[k2] is Some);
        } else if k1 == k {
            assert(t[k2] is Some);
        } else {
            assert(t[k1] is Some);
        }
    }
}

/// Counting the entries of a prefix one slot at a time.
pub(crate) proof fn lemma_count_prefix(t: Seq<Option<StrRef>>, i: int)
    requires
        0 <= i < t.len(),
    ensures
        count_some(t.subrange(0, i + 1)) == count_some(t.subrange(0, i)) + if t[i] is Some {
            1nat
        } else {
            0nat
        },
{
    assert(t.subrange(0, i + 1).drop_last() =~= t.subrange(0, i));
}

/// Two distinct objects that the table both holds have different bytes.
pub(crate) proof fn lemma_held_distinct(strs: Seq<Seq<u8>>, t: Seq<Option<StrRef>>, i: int, j: int)
    requires
        contents_distinct(strs, t),
        holds(t, i),
        holds(t, j),
        0 <= i < u32::MAX,
        0 <= j < u32::MAX,
        i != j,
    ensures
        strs[i] != strs[j],
{
    let ki = choose|k: int| 0 <= k < t.len() && t[k] == Some(StrRef(i as u32));
    let kj = choose|k: int| 0 <= k < t.len() && t[k] == Some(StrRef(j as u32));
    assert(t[ki] is Some && t[kj] is Some);
    assert(ki != kj);
}
} // verus!
