use vstd::prelude::*;

use crate::cache::{lemma_signed_len_bound, signed_key_len, slot_holds, slots_ok, CacheElement};
use crate::hash::{l3_hash_function_murmurhash3, murmur3};
use crate::header::{field_bytes, field_order, key_readable, Field};
use crate::table::{copy_actions, same_actions, ActionSet};

verus! {

/// How a field of a tuple takes part in its key: a longest-prefix field is
/// copied as it is; an exact field only when the packet's value lies in the
/// given inclusive range.
pub enum MatchKind {
    Lpm,
    Exact(Vec<u8>, Vec<u8>),
}

/// A tuple space: a list of tuples, each a set of fields with its own cache.
pub struct TupleSpace {
    tuple_list: Vec<Tuple>,
    tuple_len: usize,
    tuple_room: usize,
}

/// A tuple: the fields its key is made of, the cache indexed by the key's
/// hash, and the hash seed.
pub struct Tuple {
    fields: Vec<(MatchKind, Field)>,
    cache: Vec<CacheElement>,
    hash: u16,
    seed: u32,
}

/// Room for the key of a packet, and the length of the key last built in it.
pub struct KeyStore {
    pub key: Vec<u8>,
    pub key_len: usize,
}

/// The packet's value of field `f` lies between `start` and `end`.
pub open spec fn in_range(f: Field, pkt: Seq<u8>, start: Seq<u8>, end: Seq<u8>) -> bool {
    &&& field_order(f, pkt, 0, start, 0xff) >= 0
    &&& field_order(f, pkt, 0, end, 0xff) <= 0
}

/// The key bytes of the first `n` fields, and whether each exact field among
/// them lies in its range; the walk stops at the first one that does not.
pub open spec fn key_walk(fields: Seq<(MatchKind, Field)>, pkt: Seq<u8>, n: int) -> (Seq<u8>, bool)
    decreases n,
{
    if n <= 0 {
        (Seq::empty(), true)
    } else {
        let (k, ok) = key_walk(fields, pkt, n - 1);
        let f = fields[n - 1].1;
        if !ok {
            (k, false)
        } else {
            match fields[n - 1].0 {
                MatchKind::Lpm => (k + field_bytes(f, pkt, 0), true),
                MatchKind::Exact(s, e) => if in_range(f, pkt, s@, e@) {
                    (k + field_bytes(f, pkt, 0), true)
                } else {
                    (k, false)
                },
            }
        }
    }
}

/// The number of key bytes the first `n` fields can take.
pub open spec fn key_width(fields: Seq<(MatchKind, Field)>, n: int) -> int
    decreases n,
{
    if n <= 0 {
        0
    } else {
        key_width(fields, n - 1) + fields[n - 1].1.end_byte_pos - fields[n - 1].1.start_byte_pos + 1
    }
}

/// The key bytes of all the fields (see `key_walk`).
pub open spec fn walk_all(fields: Seq<(MatchKind, Field)>, pkt: Seq<u8>) -> (Seq<u8>, bool) {
    key_walk(fields, pkt, fields.len() as int)
}

/// The number of key bytes all the fields can take.
pub open spec fn full_width(fields: Seq<(MatchKind, Field)>) -> int {
    key_width(fields, fields.len() as int)
}

/// What reading field `tf` of a packet needs: the field lies in the packet,
/// and an exact field's bounds can be compared with it.
pub open spec fn field_ready(tf: (MatchKind, Field), pkt: Seq<u8>) -> bool {
    let f = tf.1;
    &&& f.start_byte_pos <= f.end_byte_pos
    &&& f.end_byte_pos < pkt.len()
    &&& tf.0 matches MatchKind::Exact(s, e) ==> key_readable(f, pkt, 0, s@) && key_readable(f, pkt, 0, e@)
}

/// The 16-bit hash of the first `n` bytes of a key.
pub open spec fn key_hash(key: Seq<u8>, n: nat, seed: u32) -> u16 {
    murmur3(key, n as int, seed) as u16
}

/// `k` written over the start of `base`.
pub open spec fn overlay(k: Seq<u8>, base: Seq<u8>) -> Seq<u8> {
    k + base.skip(k.len() as int)
}

proof fn lemma_walk_width(fields: Seq<(MatchKind, Field)>, pkt: Seq<u8>, n: int)
    requires
        0 <= n <= fields.len(),
        forall|i: int| 0 <= i < fields.len() ==> (#[trigger] fields[i]).1.start_byte_pos <= fields[i].1.end_byte_pos,
    ensures
        key_walk(fields, pkt, n).0.len() <= key_width(fields, n),
        0 <= key_width(fields, n),
    decreases n,
{
    if n > 0 {
        lemma_walk_width(fields, pkt, n - 1);
        let f = fields[n - 1].1;
        assert(f.start_byte_pos <= f.end_byte_pos);
    }
}

impl Tuple {
    pub closed spec fn fields(&self) -> Seq<(MatchKind, Field)> {
        self.fields@
    }

    pub closed spec fn cache(&self) -> Seq<CacheElement> {
        self.cache@
    }

    pub closed spec fn seed(&self) -> u32 {
        self.seed
    }

    /// Every field can be read from the packet, and the longest key fits in
    /// `room` bytes.
    pub open spec fn ready(&self, pkt: Seq<u8>, room: nat) -> bool {
        &&& forall|i: int| 0 <= i < self.fields().len() ==> field_ready(#[trigger] self.fields()[i], pkt)
        &&& full_width(self.fields()) <= room
    }

    /// The key store after hashing the packet, as (key bytes, key length), and
    /// the hash when every exact field lies in its range.
    #[verifier::opaque]
    pub open spec fn hash_step(&self, pkt: Seq<u8>, key: Seq<u8>, key_len: usize) -> (Seq<u8>, usize, Option<u16>) {
        let (k, ok) = walk_all(self.fields(), pkt);
        let key2 = overlay(k, key);
        if ok {
            (key2, k.len() as usize, Some(key_hash(key2, k.len(), self.seed())))
        } else {
            (key2, key_len, None)
        }
    }

    /// A tuple over `fields` with an empty cache of `cache_len` slots.
    pub fn new(fields: Vec<(MatchKind, Field)>, cache_len: usize, seed: u32) -> (r: Tuple)
        ensures
            r.fields() == fields@,
            r.seed() == seed,
            r.cache().len() == cache_len,
            forall|i: int|
                0 <= i < cache_len ==> (#[trigger] r.cache()[i]).key_len == 0 && r.cache()[i].key@.len() == 0
                    && r.cache()[i].data@.len() == 0,
    {
        let mut cache: Vec<CacheElement> = Vec::new();
        let mut i: usize = 0;
        while i < cache_len
            invariant
                i <= cache_len,
                cache@.len() == i,
                forall|k: int|
                    0 <= k < i ==> (#[trigger] cache@[k]).key_len == 0 && cache@[k].key@.len() == 0
                        && cache@[k].data@.len() == 0,
            decreases cache_len - i,
        {
            cache.push(CacheElement { key: Vec::new(), key_len: 0, data: Vec::new() });
            i = i + 1;
        }
        Tuple { fields, cache, hash: 0, seed }
    }

    /// Builds the packet's key for this tuple in `key_store` and hashes it;
    /// `None`, the key length unchanged, when an exact field lies outside its
    /// range (see `hash_step`).
    pub fn hash_function(&self, pkt: &[u8], key_store: &mut KeyStore) -> (r: Option<u16>)
        requires
            self.ready(pkt@, old(key_store).key@.len()),
        ensures
            (final(key_store).key@, final(key_store).key_len, r) == self.hash_step(
                pkt@,
                old(key_store).key@,
                old(key_store).key_len,
            ),
            final(key_store).key@.len() == old(key_store).key@.len(),
            r is Some ==> final(key_store).key_len <= final(key_store).key@.len(),
    {
        reveal(Tuple::hash_step);
        let ghost key0 = key_store.key@;
        let ghost fields = self.fields@;
        let n = self.fields.len();
        let cap = key_store.key.len();
        let mut key_next_offset: usize = 0;
        let mut i: usize = 0;
        let ghost mut ii: int = 0;
        proof {
            lemma_walk_width_all(fields, pkt@);
        }
        while i < n
            invariant
                fields == self.fields@,
                n == fields.len(),
                self.ready(pkt@, key0.len()),
                ii == i,
                i <= n,
                key_walk(fields, pkt@, ii).1,
                key_next_offset == key_walk(fields, pkt@, ii).0.len(),
                key_next_offset <= key_width(fields, ii),
                key_store.key@ == overlay(key_walk(fields, pkt@, ii).0, key0),
                key_store.key@.len() == key0.len(),
                cap == key0.len(),
                key_store.key_len == old(key_store).key_len,
                key0 == old(key_store).key@,
            decreases n - i,
        {
            let ghost k = key_walk(fields, pkt@, ii).0;
            let (kind, field) = &self.fields[i];
            assert(field_ready(fields[ii], pkt@));
            proof {
                reveal(Tuple::hash_step);
                lemma_width_mono_all(fields);
                assert(key_width(fields, ii + 1) <= full_width(fields));
            }
            let take = match kind {
                MatchKind::Lpm => true,
                MatchKind::Exact(start, end) => field.cmp_pkt_ge_value(pkt, 0, start, 0xff) && field.cmp_pkt_le_value(
                    pkt,
                    0,
                    end,
                    0xff,
                ),
            };
            if !take {
                proof {
                    assert(!key_walk(fields, pkt@, ii + 1).1);
                    lemma_walk_stops_all(fields, pkt@, ii + 1);
                    assert(walk_all(fields, pkt@) == key_walk(fields, pkt@, ii + 1));
                }
                return None;
            }
            let copied = field.copy_ptr_value(0, pkt, &mut key_store.key, key_next_offset);
            proof {
                let fb = field_bytes(*field, pkt@, 0);
                assert(key_walk(fields, pkt@, ii + 1).0 == k + fb);
                assert(key_store.key@ =~= overlay(k + fb, key0));
            }
            assert(fields[ii].1 == *field);
            assert(key_next_offset + copied <= key_width(fields, ii + 1));
            key_next_offset = key_next_offset + copied;
            i = i + 1;
            proof {
                ii = ii + 1;
            }
        }
        key_store.key_len = key_next_offset;
        Some(l3_hash_function_murmurhash3(key_store.key.as_slice(), key_store.key_len, self.seed))
    }
}

/// The cache slot of tuple `t` for hash `h`.
pub open spec fn slot_at(t: Tuple, h: u16) -> CacheElement {
    t.cache()[h as int]
}

/// A search from tuple `i` on, the key store holding `key` and `key_len`:
/// the tuple and slot that hold the packet's key, if one does, and the key
/// store left by the last tuple tried.
pub open spec fn search_from(tuples: Seq<Tuple>, pkt: Seq<u8>, key: Seq<u8>, key_len: usize, i: int) -> (
    Option<(int, u16)>,
    Seq<u8>,
    usize,
)
    decreases tuples.len() - i,
{
    if i < 0 || i >= tuples.len() {
        (None, key, key_len)
    } else {
        let (k2, l2, h) = tuples[i].hash_step(pkt, key, key_len);
        match h {
            Some(h) => if slot_holds(slot_at(tuples[i], h), k2, l2) {
                (Some((i, h)), k2, l2)
            } else {
                search_from(tuples, pkt, k2, l2, i + 1)
            },
            None => search_from(tuples, pkt, k2, l2, i + 1),
        }
    }
}

/// What a search from tuple `i` on reads exists: each tuple tried can read
/// the packet into the key store, and each hash it computes names a slot.
pub open spec fn search_ready_from(tuples: Seq<Tuple>, pkt: Seq<u8>, key: Seq<u8>, key_len: usize, i: int) -> bool
    decreases tuples.len() - i,
{
    if i < 0 || i >= tuples.len() {
        true
    } else {
        let (k2, l2, h) = tuples[i].hash_step(pkt, key, key_len);
        &&& tuples[i].ready(pkt, key.len())
        &&& slots_ok(tuples[i].cache())
        &&& match h {
            Some(h) => h < tuples[i].cache().len() && (slot_holds(slot_at(tuples[i], h), k2, l2)
                || search_ready_from(tuples, pkt, k2, l2, i + 1)),
            None => search_ready_from(tuples, pkt, k2, l2, i + 1),
        }
    }
}

impl TupleSpace {
    /// The tuples in use.
    pub closed spec fn tuples(&self) -> Seq<Tuple> {
        self.tuple_list@.take(self.tuple_len as int)
    }

    /// The number of tuples the space has room for.
    pub closed spec fn room(&self) -> usize {
        self.tuple_room
    }

    pub closed spec fn wf(&self) -> bool {
        self.tuple_len <= self.tuple_list@.len()
    }

    /// An empty tuple space with room for `len` tuples.
    pub fn new(len: usize) -> (r: TupleSpace)
        ensures
            r.wf(),
            r.tuples() == Seq::<Tuple>::empty(),
            r.room() == len,
    {
        let r = TupleSpace { tuple_list: Vec::with_capacity(len), tuple_len: 0, tuple_room: len };
        assert(r.tuples() =~= Seq::<Tuple>::empty());
        r
    }

    /// Looks the packet up tuple by tuple: the first tuple whose cache slot
    /// holds the packet's key gives a copy of the slot's actions; `None` when
    /// no tuple does (see `search_from`).
    #[verifier::rlimit(40)]
    pub fn search(&self, pkt: &[u8], key_store: &mut KeyStore) -> (r: Option<Vec<ActionSet>>)
        requires
            self.wf(),
            search_ready_from(self.tuples(), pkt@, old(key_store).key@, old(key_store).key_len, 0),
        ensures
            ({
                let (hit, k, l) = search_from(self.tuples(), pkt@, old(key_store).key@, old(key_store).key_len, 0);
                &&& final(key_store).key@ == k
                &&& final(key_store).key_len == l
                &&& match hit {
                    None => r is None,
                    Some((i, h)) => r matches Some(d) && same_actions(d@, slot_at(self.tuples()[i], h).data@),
                }
            }),
    {
        let ghost tuples = self.tuples();
        let ghost target = search_from(tuples, pkt@, key_store.key@, key_store.key_len, 0);
        let mut i: usize = 0;
        let ghost mut ii: int = 0;
        while i < self.tuple_len
            invariant
                self.wf(),
                tuples == self.tuples(),
                ii == i,
                i <= self.tuple_len,
                search_from(tuples, pkt@, key_store.key@, key_store.key_len, ii) == target,
                target == search_from(tuples, pkt@, old(key_store).key@, old(key_store).key_len, 0),
                search_ready_from(tuples, pkt@, key_store.key@, key_store.key_len, ii),
            decreases self.tuple_len - i,
        {
            let tuple = &self.tuple_list[i];
            assert(*tuple == tuples[ii]);
            let ghost key = key_store.key@;
            let ghost key_len = key_store.key_len;
            let ghost step = tuples[ii].hash_step(pkt@, key, key_len);
            assert(tuples[ii].ready(pkt@, key.len()));
            assert(slots_ok(tuples[ii].cache()));
            let hash = tuple.hash_function(pkt, key_store);
            assert(step == (key_store.key@, key_store.key_len, hash));
            match hash {
                Some(hash) => {
                    assert(hash < tuples[ii].cache().len());
                    let cache = &tuple.cache[usize::from(hash)];
                    assert(*cache == slot_at(tuples[ii], hash));
                    assert(cache.key_len <= cache.key@.len());
                    proof {
                        lemma_signed_len_bound(key_store.key_len, key_store.key@.len());
                    }
                    if cache.cmp_ptr_key(key_store.key.as_slice(), signed_key_len(key_store.key_len)) {
                        let d = copy_actions(&cache.data);
                        assert(search_from(tuples, pkt@, key, key_len, ii) == (
                            Some((ii, hash)),
                            key_store.key@,
                            key_store.key_len,
                        ));
                        return Some(d);
                    }
                },
                None => {},
            }
            i = i + 1;
            proof {
                ii = ii + 1;
            }
        }
        None
    }
}

proof fn lemma_width_mono_all(fields: Seq<(MatchKind, Field)>)
    requires
        forall|k: int| 0 <= k < fields.len() ==> (#[trigger] fields[k]).1.start_byte_pos <= fields[k].1.end_byte_pos,
    ensures
        forall|i: int, j: int|
            #![trigger key_width(fields, i), key_width(fields, j)]
            0 <= i <= j <= fields.len() ==> key_width(fields, i) <= key_width(fields, j),
{
    assert forall|i: int, j: int| #![trigger key_width(fields, i), key_width(fields, j)]
        0 <= i <= j <= fields.len() implies key_width(fields, i) <= key_width(fields, j) by {
        lemma_width_mono(fields, i, j);
    }
}

proof fn lemma_walk_width_all(fields: Seq<(MatchKind, Field)>, pkt: Seq<u8>)
    requires
        forall|i: int| 0 <= i < fields.len() ==> (#[trigger] fields[i]).1.start_byte_pos <= fields[i].1.end_byte_pos,
    ensures
        forall|n: int|
            0 <= n <= fields.len() ==> (#[trigger] key_walk(fields, pkt, n)).0.len() <= key_width(fields, n) && 0
                <= key_width(fields, n),
{
    assert forall|n: int| 0 <= n <= fields.len() implies (#[trigger] key_walk(fields, pkt, n)).0.len() <= key_width(
        fields,
        n,
    ) && 0 <= key_width(fields, n) by {
        lemma_walk_width(fields, pkt, n);
    }
}

proof fn lemma_walk_stops_all(fields: Seq<(MatchKind, Field)>, pkt: Seq<u8>, i: int)
    requires
        0 <= i,
        !key_walk(fields, pkt, i).1,
    ensures
        forall|j: int| i <= j ==> #[trigger] key_walk(fields, pkt, j) == key_walk(fields, pkt, i),
{
    assert forall|j: int| i <= j implies #[trigger] key_walk(fields, pkt, j) == key_walk(fields, pkt, i) by {
        lemma_walk_stops(fields, pkt, i, j);
    }
}

proof fn lemma_width_mono(fields: Seq<(MatchKind, Field)>, i: int, j: int)
    requires
        0 <= i <= j <= fields.len(),
        forall|k: int| 0 <= k < fields.len() ==> (#[trigger] fields[k]).1.start_byte_pos <= fields[k].1.end_byte_pos,
    ensures
        key_width(fields, i) <= key_width(fields, j),
    decreases j,
{
    if i < j {
        lemma_width_mono(fields, i, j - 1);
        assert(fields[j - 1].1.start_byte_pos <= fields[j - 1].1.end_byte_pos);
    }
}

proof fn lemma_walk_stops(fields: Seq<(MatchKind, Field)>, pkt: Seq<u8>, i: int, j: int)
    requires
        0 <= i <= j,
        !key_walk(fields, pkt, i).1,
    ensures
        key_walk(fields, pkt, j) == key_walk(fields, pkt, i),
    decreases j,
{
    if i < j {
        lemma_walk_stops(fields, pkt, i, j - 1);
    }
}

/// A packet passes field `tf` of a tuple: a longest-prefix field always; an
/// exact field when the packet's value is at least the range's start and at
/// most its end, compared big-endian as `Field::cmp_pkt_ge_value` and
/// `Field::cmp_pkt_le_value` compare.
pub open spec fn field_admits(tf: (MatchKind, Field), pkt: Seq<u8>) -> bool {
    match tf.0 {
        MatchKind::Lpm => true,
        MatchKind::Exact(start, end) => field_order(tf.1, pkt, 0, start@, 0xff) >= 0 && field_order(
            tf.1,
            pkt,
            0,
            end@,
            0xff,
        ) <= 0,
    }
}

proof fn lemma_walk_admits(fields: Seq<(MatchKind, Field)>, pkt: Seq<u8>, n: int)
    requires
        0 <= n <= fields.len(),
    ensures
        key_walk(fields, pkt, n).1 <==> forall|i: int| 0 <= i < n ==> field_admits(#[trigger] fields[i], pkt),
    decreases n,
{
    if n > 0 {
        lemma_walk_admits(fields, pkt, n - 1);
        if !key_walk(fields, pkt, n).1 && key_walk(fields, pkt, n - 1).1 {
            assert(!field_admits(fields[n - 1], pkt));
        }
    }
}

/// Law of a tuple's key: the hash of a packet exists exactly when the
/// packet passes every field of the tuple (each exact field's value within
/// its range, both ends included); in particular a value strictly below an
/// exact field's range start gives no hash. Without a hash the key length is
/// left as it was; with one it is the length of the key built.
pub proof fn law_tuple_hash_in_range(t: Tuple, pkt: Seq<u8>, key: Seq<u8>, key_len: usize)
    ensures
        (t.hash_step(pkt, key, key_len).2 is Some) <==> forall|i: int|
            0 <= i < t.fields().len() ==> field_admits(#[trigger] t.fields()[i], pkt),
        forall|i: int|
            0 <= i < t.fields().len() ==> ((#[trigger] t.fields()[i]).0 matches MatchKind::Exact(start, end)
                && field_order(t.fields()[i].1, pkt, 0, start@, 0xff) < 0 ==> t.hash_step(pkt, key, key_len).2 is None),
        t.hash_step(pkt, key, key_len).2 is None ==> t.hash_step(pkt, key, key_len).1 == key_len,
{
    reveal(Tuple::hash_step);
    lemma_walk_admits(t.fields(), pkt, t.fields().len() as int);
}

} // verus!
