//! How big each part of a table gets.
use vstd::prelude::*;
use vstd::arithmetic::power2::{lemma2_to64, lemma2_to64_rest, lemma_pow2_pos, lemma_pow2_unfold, pow2};

use super::store::Node;
use crate::value::Value;

verus! {

/// The power-of-two slice an integer key falls in: slice `p` holds the keys above `2^(p-1)`
/// and up to `2^p`, so 1 is in slice 0 and 2 in slice 1.
pub open spec fn bucket_spec(key: int) -> Option<nat>
    decreases if key > 0 { key } else { 0 },
{
    if key <= 0 {
        None
    } else if key == 1 {
        Some(0)
    } else {
        match bucket_spec((key + 1) / 2) {
            Some(p) => Some(p + 1),
            None => None,
        }
    }
}

/// The slice of a positive key is the smallest `p` with `key <= 2^p`.
pub proof fn lemma_bucket_is_ceiling_log(key: int)
    requires
        key >= 1,
    ensures
        bucket_spec(key) is Some,
        key <= pow2(bucket_spec(key)->0),
        bucket_spec(key)->0 > 0 ==> pow2((bucket_spec(key)->0 - 1) as nat) < key,
    decreases key,
{
    if key == 1 {
        lemma2_to64();
    } else {
        lemma_bucket_is_ceiling_log((key + 1) / 2);
        let p = bucket_spec((key + 1) / 2)->0;
        lemma_pow2_unfold(p + 1);
        if p > 0 {
            lemma_pow2_unfold(p);
        } else {
            lemma2_to64();
        }
    }
}

/// Powers of two grow with the exponent.
pub proof fn lemma_pow2_le(a: nat, b: nat)
    requires
        a <= b,
    ensures
        pow2(a) <= pow2(b),
{
    if a < b {
        vstd::arithmetic::power2::lemma_pow2_strictly_increases(a, b);
    }
}

/// Two powers that both bound `x` tightly are the same power.
proof fn lemma_tight_power_unique(x: int, p: nat, q: nat)
    requires
        x >= 1,
        x <= pow2(p),
        p > 0 ==> pow2((p - 1) as nat) < x,
        x <= pow2(q),
        q > 0 ==> pow2((q - 1) as nat) < x,
    ensures
        p == q,
{
    if p < q {
        lemma_pow2_le(p, (q - 1) as nat);
    } else if q < p {
        lemma_pow2_le(q, (p - 1) as nat);
    }
}

/// Which power-of-two slice an integer key falls in.
pub fn bucket_of(key: i64) -> (bucket: Option<usize>)
    ensures
        match bucket {
            Some(b) => bucket_spec(key as int) == Some(b as nat),
            None => bucket_spec(key as int) is None,
        },
        bucket matches Some(b) ==> b < 64,
{
    if key <= 0 {
        return None;
    }
    // The smallest power with `key <= 2^power`, found by doubling.
    let mut power: usize = 0;
    let mut bound: u64 = 1;
    proof {
        lemma2_to64();
    }
    while bound < key as u64
        invariant
            0 < key,
            power <= 63,
            bound == pow2(power as nat),
            power > 0 ==> pow2((power - 1) as nat) < key,
        decreases 64 - power,
    {
        proof {
            lemma2_to64();
            lemma2_to64_rest();
            if power >= 63 {
                lemma_pow2_le(63, power as nat);
                assert(false);
            }
            lemma_pow2_unfold((power + 1) as nat);
        }
        power += 1;
        bound = bound * 2;
    }
    proof {
        lemma_bucket_is_ceiling_log(key as int);
        lemma_tight_power_unique(key as int, power as nat, bucket_spec(key as int)->0);
    }
    Some(power)
}

/// `min(a * b, usize::MAX)`.
pub open spec fn saturating_product(a: int, b: int) -> int {
    if a * b > usize::MAX {
        usize::MAX as int
    } else {
        a * b
    }
}

fn saturating_mul(a: usize, b: usize) -> (product: usize)
    ensures
        product == saturating_product(a as int, b as int),
{
    match a.checked_mul(b) {
        Some(product) => product,
        None => usize::MAX,
    }
}

/// Whether `slots` array entries cost no more than the `nodes` hash entries they replace.
pub open spec fn worth_it(slots: int, nodes: int) -> bool {
    saturating_product(slots, vstd::layout::size_of::<Value>() as int) <= saturating_product(
        nodes,
        vstd::layout::size_of::<Node>() as int,
    )
}

/// Whether `slots` array entries cost no more than the `nodes` hash entries they replace.
pub fn array_is_worth_it(slots: usize, nodes: usize) -> (worth: bool)
    ensures
        worth == worth_it(slots as int, nodes as int),
{
    saturating_mul(slots, core::mem::size_of::<Value>()) <= saturating_mul(nodes, core::mem::size_of::<Node>())
}

/// The sum of the first `n` counts.
pub open spec fn prefix_sum(counts: Seq<usize>, n: int) -> int
    decreases n,
{
    if n <= 0 {
        0
    } else {
        prefix_sum(counts, n - 1) + counts[n - 1]
    }
}

/// The scan for the best array size, from slice `i` on, having covered `covered` keys and
/// settled on `best` so far. It stops once every integer key is covered: a size is kept when
/// its slice holds a key and the array it makes pays for itself. Slice 63 never makes an array
/// part: `2^63` slots are more than a `Vec` can hold.
pub open spec fn scan(counts: Seq<usize>, integers: int, i: int, covered: int, best: (int, int)) -> (int, int)
    decreases counts.len() - i,
{
    if i >= counts.len() || i < 0 || covered == integers {
        best
    } else {
        let covered = covered + counts[i];
        let best = if counts[i] > 0 && i < 63 && i < usize::BITS && worth_it(pow2(i as nat) as int, covered) {
            (pow2(i as nat) as int, covered)
        } else {
            best
        };
        scan(counts, integers, i + 1, covered, best)
    }
}

/// The array size that takes the most integer keys while still paying for itself, and how many
/// keys that is.
pub open spec fn best_array_spec(counts: Seq<usize>, integers: int) -> (int, int) {
    scan(counts, integers, 0, 0, (0, 0))
}

/// The array size of slice `p`, with the keys of the slices up to it.
pub open spec fn slice_choice(counts: Seq<usize>, p: int) -> (int, int) {
    (pow2(p as nat) as int, prefix_sum(counts, p + 1))
}

/// The chosen size is none at all, or a power of two together with exactly the keys of the
/// slices up to it.
pub proof fn lemma_best_is_a_prefix(counts: Seq<usize>, integers: int, i: int, covered: int, best: (int, int))
    requires
        0 <= i <= counts.len(),
        covered == prefix_sum(counts, i),
        best == (0int, 0int) || exists|p: int| 0 <= p < i && p < 63 && p < usize::BITS && best == #[trigger] slice_choice(counts, p),
    ensures
        ({
            let r = scan(counts, integers, i, covered, best);
            r == (0int, 0int) || exists|p: int| 0 <= p < counts.len() && p < 63 && p < usize::BITS && r == #[trigger] slice_choice(counts, p)
        }),
    decreases counts.len() - i,
{
    if i < counts.len() && covered != integers {
        let covered2 = covered + counts[i];
        let best2 = if counts[i] > 0 && i < 63 && i < usize::BITS && worth_it(pow2(i as nat) as int, covered2) {
            (pow2(i as nat) as int, covered2)
        } else {
            best
        };
        if counts[i] > 0 && i < 63 && i < usize::BITS && worth_it(pow2(i as nat) as int, covered2) {
            assert(best2 == slice_choice(counts, i));
        }
        lemma_best_is_a_prefix(counts, integers, i + 1, covered2, best2);
    }
}

/// The array size that takes the most integer keys while still paying for itself, and how many
/// keys that is.
pub fn best_array_size(counts: &[usize], integers: usize) -> (best: (usize, usize))
    requires
        prefix_sum(counts@, counts@.len() as int) <= usize::MAX,
    ensures
        best.0 as int == best_array_spec(counts@, integers as int).0,
        best.1 as int == best_array_spec(counts@, integers as int).1,
{
    let mut covered: usize = 0;
    let mut best: (usize, usize) = (0, 0);
    let mut power: usize = 0;
    while power < counts.len() && covered != integers
        invariant
            power <= counts@.len(),
            covered == prefix_sum(counts@, power as int),
            prefix_sum(counts@, counts@.len() as int) <= usize::MAX,
            scan(counts@, integers as int, power as int, covered as int, (best.0 as int, best.1 as int))
                == best_array_spec(counts@, integers as int),
        decreases counts@.len() - power,
    {
        proof {
            lemma_prefix_mono(counts@, power + 1, counts@.len() as int);
        }
        let count = counts[power];
        covered += count;
        if count > 0 && power < 63 && power < usize::BITS as usize {
            proof {
                vstd::bits::lemma_usize_pow2_no_overflow(power as nat);
                vstd::bits::lemma_usize_shl_is_mul(1, power);
            }
            let slots = 1usize << power;
            if array_is_worth_it(slots, covered) {
                best = (slots, covered);
            }
        }
        power += 1;
    }
    best
}

pub proof fn lemma_prefix_mono(counts: Seq<usize>, a: int, b: int)
    requires
        0 <= a <= b <= counts.len(),
    ensures
        prefix_sum(counts, a) <= prefix_sum(counts, b),
    decreases b - a,
{
    if b > a {
        lemma_prefix_mono(counts, a, b - 1);
    }
}

/// The node count that holds `wanted` keys: none for none, else the smallest power of two
/// above `wanted`.
pub open spec fn nodes_for_spec(wanted: int) -> int {
    if wanted == 0 {
        0
    } else {
        pow2(ceiling_log(wanted + 1)) as int
    }
}

/// The smallest `p` with `x <= 2^p`.
pub open spec fn ceiling_log(x: int) -> nat {
    match bucket_spec(x) {
        Some(p) => p,
        None => 0,
    }
}

/// The node count that holds `wanted` keys.
pub fn nodes_for(wanted: usize) -> (count: usize)
    requires
        wanted < 0x4000_0000,
    ensures
        count == nodes_for_spec(wanted as int),
        wanted > 0 ==> count > wanted,
        count == 0 || exists|p: nat| count == pow2(p),
        count <= 0x8000_0000,
{
    if wanted == 0 {
        return 0;
    }
    let target = wanted + 1;
    let mut power: usize = 0;
    let mut count: usize = 1;
    proof {
        lemma2_to64();
    }
    while count < target
        invariant
            target == wanted + 1,
            target <= 0x4000_0000,
            power <= 30,
            count == pow2(power as nat),
            power > 0 ==> pow2((power - 1) as nat) < target,
        decreases 64 - power,
    {
        proof {
            lemma2_to64();
            if power >= 30 {
                lemma_pow2_le(30, power as nat);
                assert(false);
            }
            lemma_pow2_unfold((power + 1) as nat);
        }
        power += 1;
        count = count * 2;
    }
    proof {
        lemma_bucket_is_ceiling_log(target as int);
        lemma_tight_power_unique(target as int, power as nat, bucket_spec(target as int)->0);
        lemma2_to64();
        lemma_pow2_le(power as nat, 31);
    }
    count
}

/// How many entries have an integer key from 1 to `limit`.
pub open spec fn count_upto(entries: Seq<(Value, Value)>, limit: int) -> nat
    decreases entries.len(),
{
    if entries.len() == 0 {
        0
    } else {
        count_upto(entries.drop_last(), limit) + match entries.last().0 {
            Value::Int(k) => if 1 <= k <= limit {
                1nat
            } else {
                0nat
            },
            _ => 0nat,
        }
    }
}

/// How many entries have an integer key in slice `b`.
pub open spec fn count_bucket(entries: Seq<(Value, Value)>, b: nat) -> nat
    decreases entries.len(),
{
    if entries.len() == 0 {
        0
    } else {
        count_bucket(entries.drop_last(), b) + match entries.last().0 {
            Value::Int(k) => if bucket_spec(k as int) == Some(b) {
                1nat
            } else {
                0nat
            },
            _ => 0nat,
        }
    }
}

/// A key's slice is `b` exactly when it is above `2^(b-1)` and at most `2^b`.
proof fn lemma_bucket_range(k: int, b: nat)
    requires
        k >= 1,
    ensures
        (bucket_spec(k) == Some(b)) == (k <= pow2(b) && (b == 0 || pow2((b - 1) as nat) < k)),
{
    lemma_bucket_is_ceiling_log(k);
    let c = bucket_spec(k)->0;
    if k <= pow2(b) && (b == 0 || pow2((b - 1) as nat) < k) {
        lemma_tight_power_unique(k, b, c);
    }
}

/// The keys up to `2^(p+1)` are those up to `2^p` and those of slice `p + 1`.
proof fn lemma_count_next_slice(entries: Seq<(Value, Value)>, p: nat)
    ensures
        count_upto(entries, pow2(p + 1) as int) == count_upto(entries, pow2(p) as int) + count_bucket(entries, p + 1),
    decreases entries.len(),
{
    if entries.len() > 0 {
        lemma_count_next_slice(entries.drop_last(), p);
        lemma_pow2_unfold(p + 1);
        lemma_pow2_pos(p);
        if let Value::Int(k) = entries.last().0 {
            if k >= 1 {
                lemma_bucket_range(k as int, p + 1);
            }
        }
    }
}

/// The keys up to 1 are slice 0.
proof fn lemma_count_first_slice(entries: Seq<(Value, Value)>)
    ensures
        count_upto(entries, pow2(0) as int) == count_bucket(entries, 0),
    decreases entries.len(),
{
    lemma2_to64();
    if entries.len() > 0 {
        lemma_count_first_slice(entries.drop_last());
        if let Value::Int(k) = entries.last().0 {
            if k >= 1 {
                lemma_bucket_range(k as int, 0);
            }
        }
    }
}

/// With `counts` holding each slice's number of keys, the first `p + 1` counts add up to the
/// number of keys up to `2^p`.
pub proof fn lemma_prefix_counts(entries: Seq<(Value, Value)>, counts: Seq<usize>, p: nat)
    requires
        p < counts.len(),
        forall|b: int| 0 <= b < counts.len() ==> #[trigger] counts[b] == count_bucket(entries, b as nat),
    ensures
        prefix_sum(counts, (p + 1) as int) == count_upto(entries, pow2(p) as int),
    decreases p,
{
    if p == 0 {
        lemma_count_first_slice(entries);
        assert(prefix_sum(counts, 0) == 0);
        assert(prefix_sum(counts, 1) == counts[0]);
    } else {
        lemma_prefix_counts(entries, counts, (p - 1) as nat);
        lemma_count_next_slice(entries, (p - 1) as nat);
    }
}

/// Every key counted up to some limit is counted up to a larger one, and no more keys than
/// entries are counted.
pub proof fn lemma_count_upto_bounds(entries: Seq<(Value, Value)>, a: int, b: int)
    requires
        a <= b,
    ensures
        count_upto(entries, a) <= count_upto(entries, b),
        count_upto(entries, b) <= entries.len(),
    decreases entries.len(),
{
    if entries.len() > 0 {
        lemma_count_upto_bounds(entries.drop_last(), a, b);
    }
}

/// No integer key is above `2^63`.
pub proof fn lemma_count_all_ints(entries: Seq<(Value, Value)>, limit: int)
    requires
        limit >= i64::MAX,
    ensures
        count_upto(entries, limit) == count_upto(entries, i64::MAX as int),
    decreases entries.len(),
{
    if entries.len() > 0 {
        lemma_count_all_ints(entries.drop_last(), limit);
    }
}

/// No key is counted up to a limit below 1.
pub proof fn lemma_count_upto_none(entries: Seq<(Value, Value)>, limit: int)
    requires
        limit < 1,
    ensures
        count_upto(entries, limit) == 0,
    decreases entries.len(),
{
    if entries.len() > 0 {
        lemma_count_upto_none(entries.drop_last(), limit);
    }
}

/// The keys counted in a prefix are counted in the whole, and the rest of the entries add at
/// most one each.
pub proof fn lemma_count_upto_prefix(entries: Seq<(Value, Value)>, limit: int, i: int)
    requires
        0 <= i <= entries.len(),
    ensures
        count_upto(entries.take(i), limit) <= count_upto(entries, limit),
        count_upto(entries, limit) <= count_upto(entries.take(i), limit) + (entries.len() - i),
    decreases entries.len(),
{
    if i == entries.len() {
        assert(entries.take(i) =~= entries);
    } else {
        lemma_count_upto_prefix(entries.drop_last(), limit, i);
        assert(entries.drop_last().take(i) =~= entries.take(i));
    }
}

/// One more entry counts once more, exactly when its key is an integer from 1 to `limit`.
pub proof fn lemma_count_upto_step(entries: Seq<(Value, Value)>, limit: int, i: int)
    requires
        0 <= i < entries.len(),
    ensures
        count_upto(entries.take(i + 1), limit) == count_upto(entries.take(i), limit) + match entries[i].0 {
            Value::Int(k) => if 1 <= k <= limit {
                1int
            } else {
                0int
            },
            _ => 0int,
        },
        forall|b: nat| #[trigger] count_bucket(entries.take(i + 1), b) == count_bucket(entries.take(i), b) + match entries[i].0 {
            Value::Int(k) => if bucket_spec(k as int) == Some(b) {
                1int
            } else {
                0int
            },
            _ => 0int,
        },
{
    assert(entries.take(i + 1).drop_last() =~= entries.take(i));
    assert(entries.take(i + 1).last() == entries[i]);
}

/// No more keys fall in a slice than there are entries.
pub proof fn lemma_count_bucket_bound(entries: Seq<(Value, Value)>, b: nat)
    ensures
        count_bucket(entries, b) <= entries.len(),
    decreases entries.len(),
{
    if entries.len() > 0 {
        lemma_count_bucket_bound(entries.drop_last(), b);
    }
}

/// The node count for a positive number of keys is above it.
pub proof fn lemma_nodes_for_room(wanted: int)
    requires
        wanted > 0,
    ensures
        nodes_for_spec(wanted) > wanted,
{
    lemma_bucket_is_ceiling_log(wanted + 1);
}

} // verus!
