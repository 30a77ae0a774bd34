//! Lua strings and the table that interns the short ones.
use vstd::prelude::*;
use vstd::arithmetic::power2::{pow2, lemma_pow2_unfold, lemma_pow2_pos};

use super::handle::{StrRef, TableRef};
use super::table::key::KeyView;
use super::table::store::{lemma_ok_grows, Table};
use crate::value::Value;
use super::hash::{hash_bytes, string_hash};
use super::intern::{
    contents_distinct, count_some, entries_ok, holds, home, lemma_count_bound, lemma_count_empty,
    lemma_count_prefix, lemma_distance, lemma_held_distinct, lemma_insert, lemma_mask,
    lemma_probe_distance, lemma_probe_not_full, lemma_probe_step, lemma_table_push, place, probe,
    distance,
};
use crate::text::same_bytes;

verus! {

/// Strings of this many bytes or fewer are interned.
pub const SHORT_STRING_MAX: usize = 40;

const INTERN_INITIAL_BUCKETS: usize = 16;

pub open spec fn is_short(bytes: Seq<u8>) -> bool {
    bytes.len() <= SHORT_STRING_MAX
}

/// A Lua string: bytes plus a trailing NUL that is not part of the value.
#[derive(Debug)]
pub struct LuaStr {
    storage: Vec<u8>,
    hash: u32,
}

impl View for LuaStr {
    type V = Seq<u8>;

    closed spec fn view(&self) -> Seq<u8> {
        self.storage@.drop_last()
    }
}

impl LuaStr {
    #[verifier::type_invariant]
    spec fn inv(self) -> bool {
        &&& self.storage@.len() >= 1
        &&& self.storage@.last() == 0
        &&& self.hash == string_hash(self.storage@.drop_last())
    }

    /// The bytes of the string, without the trailing NUL.
    pub fn as_bytes(&self) -> (bytes: &[u8])
        ensures
            bytes@ == self@,
    {
        proof {
            use_type_invariant(self);
        }
        let n = self.storage.len();
        vstd::slice::slice_subrange(self.storage.as_slice(), 0, n - 1)
    }

    /// The bytes with the trailing NUL, as a C caller reads them.
    pub fn as_bytes_with_nul(&self) -> (bytes: &[u8])
        ensures
            bytes@ == self@.push(0),
    {
        proof {
            use_type_invariant(self);
            assert(self.storage@ =~= self.storage@.drop_last().push(0));
        }
        self.storage.as_slice()
    }

    pub fn len(&self) -> (len: usize)
        ensures
            len == self@.len(),
    {
        proof {
            use_type_invariant(self);
        }
        self.storage.len() - 1
    }

    pub fn is_empty(&self) -> (empty: bool)
        ensures
            empty == (self@.len() == 0),
    {
        self.len() == 0
    }

    /// The hash the string was interned under.
    pub fn hash(&self) -> (hash: u32)
        ensures
            hash == string_hash(self@),
    {
        proof {
            use_type_invariant(self);
        }
        self.hash
    }

    fn from_bytes(bytes: &[u8], hash: u32) -> (string: LuaStr)
        requires
            hash == string_hash(bytes@),
        ensures
            string@ == bytes@,
    {
        let mut storage = Vec::new();
        storage.extend_from_slice(bytes);
        storage.push(0);
        proof {
            assert(storage@.drop_last() =~= bytes@);
        }
        LuaStr { storage, hash }
    }
}

/// What a slot holds.
enum Object {
    Str(LuaStr),
    Table(Table),
}

/// What an object that is no string stands as among the strings: longer than any string that
/// is interned, so that interning never looks at it.
pub open spec fn not_a_string() -> Seq<u8> {
    Seq::new((SHORT_STRING_MAX + 1) as nat, |i: int| 0u8)
}

/// Every object ruta allocates.
pub struct Heap {
    objects: Vec<Object>,
    /// Short strings by content, with linear probing. Empty, or a power of two long.
    interned: Vec<Option<StrRef>>,
    interned_len: usize,
    /// The power of two the intern table is long.
    log: Ghost<nat>,
}

impl Heap {
    /// The contents of every object, by handle: a string's bytes, and `not_a_string()` for
    /// any other object.
    pub closed spec fn strings(&self) -> Seq<Seq<u8>> {
        self.objects@.map_values(|object: Object| match object {
            Object::Str(string) => string@,
            Object::Table(_) => not_a_string(),
        })
    }

    /// Which objects are strings, by handle.
    pub closed spec fn kinds(&self) -> Seq<bool> {
        self.objects@.map_values(|object: Object| object is Str)
    }

    /// The object `i` is a string.
    pub open spec fn is_string(&self, i: int) -> bool {
        0 <= i < self.kinds().len() && self.kinds()[i]
    }

    /// The object `i` is a table.
    pub open spec fn is_table(&self, i: int) -> bool {
        0 <= i < self.kinds().len() && !self.kinds()[i]
    }

    /// The table object `i`.
    pub(crate) closed spec fn table_at(&self, i: int) -> Table {
        match self.objects@[i] {
            Object::Table(table) => table,
            Object::Str(_) => arbitrary(),
        }
    }

    /// What table `t` holds at key `k`.
    pub open(crate) spec fn table_get_spec(&self, t: int, k: KeyView) -> Value {
        self.table_at(t).get(self.strings(), k)
    }

    /// Every table of `before` is still a table here, and holds what it held.
    pub open spec fn keeps_tables_of(&self, before: &Heap) -> bool {
        forall|i: int, k: KeyView|
            #![trigger self.table_get_spec(i, k)]
            before.is_table(i) ==> self.is_table(i) && self.table_get_spec(i, k)
                == before.table_get_spec(i, k)
    }

    /// The intern table is well formed over the objects `strs`.
    spec fn table_ok(&self, strs: Seq<Seq<u8>>) -> bool {
        let t = self.interned@;
        let n = t.len();
        &&& (n == 0 || (n == pow2(self.log@) && self.log@ >= 4))
        &&& (n == 0 || n == INTERN_INITIAL_BUCKETS || n <= 3 * self.interned_len)
        &&& self.interned_len == count_some(t)
        &&& self.interned_len <= strs.len()
        &&& n > 0 ==> self.interned_len * 4 < n * 3
        &&& entries_ok(strs, t)
        &&& contents_distinct(strs, t)
    }

    /// The heap is consistent: handles fit in `u32`, and every short string is in the intern
    /// table, at most once by content.
    pub closed spec fn wf(&self) -> bool {
        let strs = self.strings();
        &&& self.kinds().len() == strs.len()
        &&& forall|i: int| 0 <= i < strs.len() && !self.kinds()[i] ==> #[trigger] self.table_at(i).ok(strs, self.kinds())
        &&& strs.len() < u32::MAX
        &&& strs.len() * 16 < usize::MAX
        &&& self.table_ok(strs)
        &&& forall|i: int| 0 <= i < strs.len() && is_short(#[trigger] strs[i]) ==> holds(self.interned@, i)
    }

    /// One more object still fits: its handle in a `u32`, and the intern table's arithmetic
    /// in a `usize`.
    pub open spec fn has_room(&self) -> bool {
        &&& self.strings().len() + 1 < u32::MAX
        &&& (self.strings().len() + 1) * 16 < usize::MAX
    }

    /// How many objects the heap holds.
    pub fn len(&self) -> (len: usize)
        ensures
            len == self.strings().len(),
    {
        self.objects.len()
    }

    pub fn is_empty(&self) -> (empty: bool)
        ensures
            empty == (self.strings().len() == 0),
    {
        self.objects.len() == 0
    }

    pub fn string(&self, handle: StrRef) -> (string: &LuaStr)
        requires
            self.is_string(handle.id() as int),
        ensures
            string@ == self.strings()[handle.id() as int],
    {
        match &self.objects[handle.0 as usize] {
            Object::Str(string) => string,
            Object::Table(_) => {
                proof {
                    assert(self.kinds()[handle.id() as int]);
                }
                unreached()
            },
        }
    }
}

impl Heap {
    /// Puts a string on the heap. Strings of `SHORT_STRING_MAX` bytes or fewer are interned:
    /// asking again for the same bytes gives back the same handle.
    pub fn new_string(&mut self, bytes: &[u8]) -> (handle: StrRef)
        requires
            old(self).wf(),
            old(self).has_room(),
        ensures
            final(self).wf(),
            handle.id() < final(self).strings().len(),
            final(self).is_string(handle.id() as int),
            final(self).strings()[handle.id() as int] == bytes@,
            if is_short(bytes@) && old(self).strings().contains(bytes@) {
                *final(self) == *old(self)
            } else {
                &&& final(self).strings() == old(self).strings().push(bytes@)
                &&& final(self).kinds() == old(self).kinds().push(true)
                &&& handle.id() == old(self).strings().len()
            },
            final(self).keeps_tables_of(old(self)),
    {
        let short = bytes.len() <= SHORT_STRING_MAX;
        let hash = hash_bytes(bytes);

        if short {
            if let Some(existing) = self.find_interned(bytes, hash) {
                proof {
                    assert(self.strings()[existing.id() as int] == bytes@);
                }
                return existing;
            }
        }
        let ghost before = self.strings();
        let ghost before_kinds = self.kinds();
        let ghost before_heap = *self;
        let string = LuaStr::from_bytes(bytes, hash);
        self.objects.push(Object::Str(string));
        let handle = StrRef((self.objects.len() - 1) as u32);
        proof {
            assert(self.strings() =~= before.push(bytes@));
            assert(self.kinds() =~= before_kinds.push(true));
            lemma_string_pushed(&before_heap, self, bytes@);
            lemma_table_push(before, bytes@, self.interned@);
            assert forall|i: int|
                0 <= i < before.len() && is_short(#[trigger] self.strings()[i]) implies holds(
                self.interned@,
                i,
            ) by {
                assert(self.strings()[i] == before[i]);
            }
        }

        let ghost mid = *self;
        if short {
            proof {
                assert forall|k: int|
                    0 <= k < self.interned@.len() && #[trigger] self.interned@[k] is Some implies self.strings()[self.interned@[k]->Some_0.id() as int]
                    != self.strings()[handle.id() as int] by {
                    let i = self.interned@[k]->Some_0.id() as int;
                    assert(self.strings()[i] == before[i]);
                }
            }
            self.intern(handle, hash);
        }
        proof {
            assert(self.objects@ == mid.objects@);
            assert(self.strings() == mid.strings());
            assert(self.kinds() == mid.kinds());
            assert forall|i: int| 0 <= i < self.objects@.len() implies #[trigger] self.table_at(i) == mid.table_at(i) by {}
            assert forall|i: int, k: KeyView| before_heap.is_table(i) implies self.is_table(i)
                && #[trigger] self.table_get_spec(i, k) == before_heap.table_get_spec(i, k) by {
                assert(mid.table_get_spec(i, k) == before_heap.table_get_spec(i, k));
                assert(self.table_at(i) == mid.table_at(i));
            }
            let strs = self.strings();
            assert forall|i: int| 0 <= i < strs.len() && is_short(#[trigger] strs[i]) implies holds(
                self.interned@,
                i,
            ) by {
                if i == before.len() {
                    assert(i == handle.id());
                }
            }
            if !short {
                assert(!(is_short(bytes@) && before.contains(bytes@)));
            } else {
                assert(!before.contains(bytes@));
            }
        }
        handle
    }

    /// The handle of an interned string with these bytes, if there is one.
    fn find_interned(&self, bytes: &[u8], hash: u32) -> (found: Option<StrRef>)
        requires
            self.wf(),
            is_short(bytes@),
            hash == string_hash(bytes@),
        ensures
            match found {
                Some(handle) => handle.id() < self.strings().len() && self.strings()[handle.id() as int]
                    == bytes@,
                None => !self.strings().contains(bytes@),
            },
    {
        let ghost strs = self.strings();
        let ghost t = self.interned@;
        let n = self.interned.len();
        if n == 0 {
            proof {
                assert forall|i: int| 0 <= i < strs.len() implies strs[i] != bytes@ by {
                    if strs[i] == bytes@ {
                        assert(is_short(strs[i]));
                        assert(holds(t, i));
                    }
                }
            }
            return None;
        }
        let ghost log = self.log@;
        let ghost h = home(bytes@, n as int);
        proof {
            lemma_pow2_pos(log);
            lemma_mask(hash as usize, n, log);
            let sh = string_hash(bytes@) as int;
            vstd::arithmetic::div_mod::lemma_mod_bound(sh, n as int);
            vstd::arithmetic::div_mod::lemma_mod_twice(sh, n as int);
            lemma_count_bound(t);
        }
        let mask = n - 1;
        let mut index = hash as usize & mask;
        let ghost mut d: int = 0;
        proof {
            assert(probe(h, 0, n as int) == h % (n as int));
        }

        // Linear probing, and the table is never full.
        loop
            invariant
                self.wf(),
                strs == self.strings(),
                t == self.interned@,
                n == t.len(),
                mask == n - 1,
                n == pow2(log),
                count_some(t) < n,
                h == home(bytes@, n as int),
                is_short(bytes@),
                0 <= h < n,
                0 <= d < n,
                index as int == probe(h, d, n as int),
                forall|j: int|
                    0 <= j < d ==> #[trigger] t[probe(h, j, n as int)] is Some && strs[t[probe(
                        h,
                        j,
                        n as int,
                    )]->Some_0.id() as int] != bytes@,
            decreases n - d,
        {
            match self.interned[index] {
                None => {
                    proof {
                        assert forall|i: int| 0 <= i < strs.len() implies strs[i] != bytes@ by {
                            if strs[i] == bytes@ {
                                assert(is_short(strs[i]));
                                assert(holds(t, i));
                                let k = choose|k: int| 0 <= k < t.len() && t[k] == Some(StrRef(i as u32));
                                assert(t[k] is Some);
                                let dk = distance(h, k, n as int);
                                lemma_distance(h, k, n as int);
                                if dk < d {
                                    assert(t[probe(h, dk, n as int)] is Some);
                                } else if dk == d {
                                } else {
                                    assert(t[probe(h, d, n as int)] is Some);
                                }
                            }
                        }
                    }
                    return None;
                },
                Some(handle) => {
                    if same_bytes(self.string(handle).as_bytes(), bytes) {
                        return Some(handle);
                    }
                    proof {
                        lemma_probe_step(h, d, n as int);
                        lemma_mask((index + 1) as usize, n, log);
                        lemma_probe_not_full(t, h, d + 1);
                    }
                    index = (index + 1) & mask;
                    proof {
                        d = d + 1;
                    }
                },
            }
        }
    }

    /// Puts an already-allocated short string into the intern table.
    fn intern(&mut self, handle: StrRef, hash: u32)
        requires
            old(self).table_ok(old(self).strings()),
            old(self).interned_len < old(self).strings().len(),
            old(self).strings().len() < u32::MAX,
            old(self).strings().len() * 16 < usize::MAX,
            handle.id() < old(self).strings().len(),
            is_short(old(self).strings()[handle.id() as int]),
            hash == string_hash(old(self).strings()[handle.id() as int]),
            forall|k: int|
                0 <= k < old(self).interned@.len() && #[trigger] old(self).interned@[k] is Some
                    ==> old(self).strings()[old(self).interned@[k]->Some_0.id() as int]
                    != old(self).strings()[handle.id() as int],
        ensures
            final(self).strings() == old(self).strings(),
            final(self).objects@ == old(self).objects@,
            final(self).table_ok(final(self).strings()),
            holds(final(self).interned@, handle.id() as int),
            forall|i: int| holds(old(self).interned@, i) ==> holds(final(self).interned@, i),
    {
        let ghost strs = self.strings();
        if (self.interned_len + 1) * 4 >= self.interned.len() * 3 {
            self.grow_interned();
        }
        let ghost t = self.interned@;
        let ghost log = self.log@;
        let k = place(&mut self.interned, handle, hash, Ghost(strs), Ghost(log));
        proof {
            lemma_insert(strs, t, k as int, handle);
        }
        self.interned_len += 1;
    }

    /// Doubles the table and reinserts.
    fn grow_interned(&mut self)
        requires
            old(self).table_ok(old(self).strings()),
            old(self).interned_len < old(self).strings().len(),
            old(self).strings().len() < u32::MAX,
            old(self).strings().len() * 16 < usize::MAX,
            (old(self).interned_len + 1) * 4 >= old(self).interned@.len() * 3,
        ensures
            final(self).strings() == old(self).strings(),
            final(self).objects@ == old(self).objects@,
            final(self).interned_len == old(self).interned_len,
            final(self).interned@.len() == if old(self).interned@.len() == 0 {
                INTERN_INITIAL_BUCKETS as nat
            } else {
                old(self).interned@.len() * 2
            },
            final(self).interned@.len() == pow2(final(self).log@),
            final(self).log@ >= 4,
            count_some(final(self).interned@) == final(self).interned_len,
            entries_ok(final(self).strings(), final(self).interned@),
            contents_distinct(final(self).strings(), final(self).interned@),
            forall|i: int| holds(old(self).interned@, i) ==> holds(final(self).interned@, i),
            forall|k: int|
                0 <= k < final(self).interned@.len() && #[trigger] final(self).interned@[k] is Some
                    ==> exists|j: int| 0 <= j < old(self).interned@.len() && old(self).interned@[j]
                    == final(self).interned@[k],
    {
        let ghost strs = self.strings();
        let ghost old_t = self.interned@;
        let n = self.interned.len();
        let buckets: usize = if n == 0 {
            INTERN_INITIAL_BUCKETS
        } else {
            n * 2
        };
        let ghost new_log: nat = if n == 0 {
            4
        } else {
            self.log@ + 1
        };
        proof {
            if n == 0 {
                vstd::arithmetic::power2::lemma2_to64();
            } else {
                lemma_pow2_unfold(new_log);
            }
        }
        let mut table: Vec<Option<StrRef>> = vec![None; buckets];
        proof {
            lemma_count_empty(table@);
            assert(old_t.subrange(0, 0) =~= Seq::<Option<StrRef>>::empty());
        }
        let mut i: usize = 0;
        while i < n
            invariant
                self.strings() == strs,
                self.interned@ == old_t,
                n == old_t.len(),
                i <= n,
                table@.len() == buckets,
                buckets == pow2(new_log),
                n > 0 ==> buckets == 2 * n,
                self.table_ok(strs),
                strs.len() < u32::MAX,
                count_some(table@) == count_some(old_t.subrange(0, i as int)),
                entries_ok(strs, table@),
                contents_distinct(strs, table@),
                forall|j: int| 0 <= j < i && #[trigger] old_t[j] is Some ==> holds(table@, old_t[j]->Some_0.id() as int),
                forall|k: int|
                    0 <= k < table@.len() && #[trigger] table@[k] is Some ==> exists|j: int|
                        0 <= j < i && old_t[j] == table@[k],
            decreases n - i,
        {
            proof {
                lemma_count_prefix(old_t, i as int);
                lemma_count_bound(old_t.subrange(0, i as int));
            }
            if let Some(handle) = self.interned[i] {
                let hash = hash_bytes(self.string(handle).as_bytes());
                let ghost before = table@;
                proof {
                    assert(old_t[i as int] is Some);
                    assert forall|k: int|
                        0 <= k < before.len() && #[trigger] before[k] is Some implies strs[before[k]->Some_0.id() as int]
                        != strs[handle.id() as int] by {
                        let j = choose|j: int| 0 <= j < i && old_t[j] == before[k];
                        assert(old_t[j] is Some);
                    }
                }
                let k = place(&mut table, handle, hash, Ghost(strs), Ghost(new_log));
                proof {
                    lemma_insert(strs, before, k as int, handle);
                    assert forall|kk: int|
                        0 <= kk < table@.len() && #[trigger] table@[kk] is Some implies exists|j: int|
                            0 <= j < i + 1 && old_t[j] == table@[kk] by {
                        if kk == k {
                            assert(old_t[i as int] == table@[kk]);
                        } else {
                            assert(before[kk] is Some);
                            let j = choose|j: int| 0 <= j < i && old_t[j] == before[kk];
                            assert(old_t[j] == table@[kk]);
                        }
                    }
                    assert forall|j: int| 0 <= j < i + 1 && #[trigger] old_t[j] is Some implies holds(
                        table@,
                        old_t[j]->Some_0.id() as int,
                    ) by {
                        if j < i {
                            assert(holds(before, old_t[j]->Some_0.id() as int));
                        }
                    }
                }
            }
            i += 1;
        }
        proof {
            assert(old_t.subrange(0, n as int) =~= old_t);
            assert forall|x: int| holds(old_t, x) implies holds(table@, x) by {
                let j = choose|j: int| 0 <= j < old_t.len() && old_t[j] == Some(StrRef(x as u32));
                assert(old_t[j] is Some);
                assert(holds(table@, old_t[j]->Some_0.id() as int));
            }
        }
        self.interned = table;
        self.log = Ghost(new_log);
    }
}

impl Heap {
    /// A new, empty table, with room made for `array_hint` array entries and `hash_hint` keyed
    /// ones.
    pub fn new_table(&mut self, array_hint: usize, hash_hint: usize) -> (handle: TableRef)
        requires
            old(self).wf(),
            old(self).has_room(),
            array_hint < i64::MAX,
            hash_hint < 0x4000_0000,
        ensures
            final(self).wf(),
            handle.id() == old(self).strings().len(),
            final(self).is_table(handle.id() as int),
            final(self).strings() == old(self).strings().push(not_a_string()),
            final(self).kinds() == old(self).kinds().push(false),
            final(self).keeps_tables_of(old(self)),
            forall|k: KeyView| #[trigger] final(self).table_get_spec(handle.id() as int, k) == Value::Nil,
    {
        let ghost before = *self;
        let table = Table::with_hints(array_hint, hash_hint);
        proof {
            lemma_table_push(before.strings(), not_a_string(), self.interned@);
        }
        self.objects.push(Object::Table(table));
        let handle = TableRef((self.objects.len() - 1) as u32);
        proof {
            assert(self.strings() =~= before.strings().push(not_a_string()));
            assert(self.kinds() =~= before.kinds().push(false));
            let strs = self.strings();
            assert forall|i: int| 0 <= i < strs.len() && !self.kinds()[i] implies #[trigger] self.table_at(i).ok(strs, self.kinds()) by {
                if i < before.strings().len() {
                    assert(self.objects@[i] == before.objects@[i]);
                    assert(before.table_at(i).ok(before.strings(), before.kinds()));
                    lemma_ok_grows(before.table_at(i), before.strings(), before.kinds(), not_a_string(), false);
                } else {
                    assert(self.table_at(i) == table);
                }
            }
            assert forall|i: int, k: KeyView| before.is_table(i) implies self.is_table(i)
                && #[trigger] self.table_get_spec(i, k) == before.table_get_spec(i, k) by {
                assert(self.objects@[i] == before.objects@[i]);
                assert(before.table_at(i).ok(before.strings(), before.kinds()));
                lemma_ok_grows(before.table_at(i), before.strings(), before.kinds(), not_a_string(), false);
            }
            assert forall|i: int| 0 <= i < strs.len() && is_short(#[trigger] strs[i]) implies holds(self.interned@, i) by {
                if i < before.strings().len() {
                    assert(strs[i] == before.strings()[i]);
                } else {
                    assert(strs[i] == not_a_string());
                }
            }
            assert forall|k: KeyView| #[trigger] self.table_get_spec(handle.id() as int, k) == Value::Nil by {
                assert(self.table_at(handle.id() as int) == table);
            }
        }
        handle
    }

    pub(crate) fn table(&self, handle: TableRef) -> (body: &Table)
        requires
            self.is_table(handle.id() as int),
        ensures
            *body == self.table_at(handle.id() as int),
    {
        match &self.objects[handle.0 as usize] {
            Object::Table(table) => table,
            Object::Str(_) => {
                proof {
                    assert(!self.kinds()[handle.id() as int]);
                }
                unreached()
            },
        }
    }

    /// Takes a table's body out, leaving an empty one behind.
    pub(crate) fn take_table(&mut self, handle: TableRef) -> (body: Table)
        requires
            old(self).wf(),
            old(self).is_table(handle.id() as int),
        ensures
            body == old(self).table_at(handle.id() as int),
            final(self).wf(),
            final(self).strings() == old(self).strings(),
            final(self).kinds() == old(self).kinds(),
            forall|i: int| 0 <= i < old(self).kinds().len() && i != handle.id() ==> #[trigger] final(self).table_at(i) == old(self).table_at(i),
    {
        let ghost before = *self;
        let index = handle.0 as usize;
        let fresh = Table::empty();
        let ghost empty = fresh;
        let mut slot = Object::Table(fresh);
        self.objects.set_and_swap(index, &mut slot);
        proof {
            assert(self.strings() =~= before.strings());
            assert(self.kinds() =~= before.kinds());
            assert forall|i: int| 0 <= i < before.kinds().len() && i != handle.id() implies #[trigger] self.table_at(i) == before.table_at(i) by {
                assert(self.objects@[i] == before.objects@[i]);
            }
            assert(self.table_at(index as int) == empty);
            assert forall|i: int| 0 <= i < self.strings().len() && !self.kinds()[i] implies #[trigger] self.table_at(i).ok(self.strings(), self.kinds()) by {
                if i != index {
                    assert(before.table_at(i).ok(before.strings(), before.kinds()));
                }
            }
        }
        match slot {
            Object::Table(table) => table,
            Object::Str(_) => {
                proof {
                    assert(!before.kinds()[index as int]);
                }
                unreached()
            },
        }
    }

    /// Puts a table's body back.
    pub(crate) fn put_table(&mut self, handle: TableRef, body: Table)
        requires
            old(self).wf(),
            old(self).is_table(handle.id() as int),
            body.ok(old(self).strings(), old(self).kinds()),
        ensures
            final(self).table_at(handle.id() as int) == body,
            final(self).wf(),
            final(self).strings() == old(self).strings(),
            final(self).kinds() == old(self).kinds(),
            forall|i: int| 0 <= i < old(self).kinds().len() && i != handle.id() ==> #[trigger] final(self).table_at(i) == old(self).table_at(i),
    {
        let ghost before = *self;
        let index = handle.0 as usize;
        let ghost put = body;
        self.objects.set(index, Object::Table(body));
        proof {
            assert(self.strings() =~= before.strings());
            assert(self.kinds() =~= before.kinds());
            assert forall|i: int| 0 <= i < before.kinds().len() && i != handle.id() implies #[trigger] self.table_at(i) == before.table_at(i) by {
                assert(self.objects@[i] == before.objects@[i]);
            }
            assert(self.table_at(index as int) == put);
            assert forall|i: int| 0 <= i < self.strings().len() && !self.kinds()[i] implies #[trigger] self.table_at(i).ok(self.strings(), self.kinds()) by {
                if i != index {
                    assert(before.table_at(i).ok(before.strings(), before.kinds()));
                }
            }
        }
    }
}

/// Every table of a consistent heap is well formed over its objects.
pub(crate) proof fn lemma_table_ok(heap: &Heap, i: int)
    requires
        heap.wf(),
        heap.is_table(i),
    ensures
        heap.table_at(i).ok(heap.strings(), heap.kinds()),
{
}

/// A consistent heap knows the kind of every object it holds.
pub(crate) proof fn lemma_kinds_len(heap: &Heap)
    requires
        heap.wf(),
    ensures
        heap.kinds().len() == heap.strings().len(),
{
}

/// Equal short strings are one object: two handles whose strings are short and equal are the
/// same handle, which is what lets short strings be compared by handle.
pub proof fn lemma_short_strings_are_one_object(heap: &Heap, a: StrRef, b: StrRef)
    requires
        heap.wf(),
        a.id() < heap.strings().len(),
        b.id() < heap.strings().len(),
        is_short(heap.strings()[a.id() as int]),
        heap.strings()[a.id() as int] == heap.strings()[b.id() as int],
    ensures
        a == b,
{
    let strs = heap.strings();
    assert(is_short(strs[a.id() as int]));
    assert(is_short(strs[b.id() as int]));
    if a.id() != b.id() {
        lemma_held_distinct(strs, heap.interned@, a.id() as int, b.id() as int);
    }
}

/// The tables stay well formed, and hold what they held, when the heap gains a string.
proof fn lemma_string_pushed(before: &Heap, after: &Heap, x: Seq<u8>)
    requires
        before.kinds().len() == before.strings().len(),
        forall|i: int| 0 <= i < before.strings().len() && !before.kinds()[i] ==> #[trigger] before.table_at(i).ok(
            before.strings(),
            before.kinds(),
        ),
        after.strings() == before.strings().push(x),
        after.kinds() == before.kinds().push(true),
        after.objects@.len() == before.objects@.len() + 1,
        forall|i: int| 0 <= i < before.objects@.len() ==> after.objects@[i] == before.objects@[i],
    ensures
        forall|i: int| 0 <= i < after.strings().len() && !after.kinds()[i] ==> #[trigger] after.table_at(i).ok(
            after.strings(),
            after.kinds(),
        ),
        after.keeps_tables_of(before),
{
    let before_len = before.strings().len();
    assert(before.objects@.len() == before_len);
    assert forall|i: int| 0 <= i < after.strings().len() && !after.kinds()[i] implies #[trigger] after.table_at(i).ok(
        after.strings(),
        after.kinds(),
    ) by {
        assert(i < before_len);
        assert(after.table_at(i) == before.table_at(i));
        assert(!before.kinds()[i]);
        lemma_ok_grows(before.table_at(i), before.strings(), before.kinds(), x, true);
    }
    assert forall|i: int, k: KeyView| before.is_table(i) implies after.is_table(i)
        && #[trigger] after.table_get_spec(i, k) == before.table_get_spec(i, k) by {
        assert(after.table_at(i) == before.table_at(i));
        lemma_ok_grows(before.table_at(i), before.strings(), before.kinds(), x, true);
    }
}

impl Default for Heap {
    fn default() -> (heap: Heap)
        ensures
            heap.wf(),
            heap.strings().len() == 0,
    {
        let heap = Heap { objects: Vec::new(), interned: Vec::new(), interned_len: 0, log: Ghost(0) };
        proof {
            assert(heap.strings() =~= Seq::<Seq<u8>>::empty());
            lemma_count_empty(heap.interned@);
        }
        heap
    }
}

} // verus!
