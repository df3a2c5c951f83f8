//! A persistent open-addressed hash table using linear probing with an
//! incremental (amortized) power-of-two growth policy mapped onto a single
//! file of fixed-width slots.

use vstd::bytes::*;
use vstd::prelude::*;
use vstd::slice::*;

verus! {

/// Options for constructing an [`LPHashTable`]; `filename` names the backing
/// file that an embedding program keeps in sync with the table's file image.
pub struct LPHashTableOptions {
    pub filename: String,
}

/// One fixed-width slot of the table file: either empty or `(key, value)`.
#[derive(Clone, Copy, Debug, PartialEq, Eq)]
pub struct LPHashTableEntry(pub Option<(u64, u64)>);

/// The 17-byte encoding of a slot: one discriminator byte (0 = empty,
/// 1 = occupied) followed by key and value as 8-byte little-endian integers;
/// empty slots are all zero bytes.
pub open spec fn spec_serialize_lp_entry(e: LPHashTableEntry) -> Seq<u8> {
    match e.0 {
        None => Seq::new(17, |i: int| 0u8),
        Some((key, value)) => seq![1u8] + spec_u64_to_le_bytes(key) + spec_u64_to_le_bytes(value),
    }
}

/// Decoding of a slot buffer; `None` means the buffer is malformed
/// (too short, or an unknown discriminator byte).
pub open spec fn spec_deserialize_lp_entry(s: Seq<u8>) -> Option<LPHashTableEntry> {
    if s.len() >= 1 && s[0] == 0u8 {
        Some(LPHashTableEntry(None))
    } else if s.len() >= 17 && s[0] == 1u8 {
        Some(
            LPHashTableEntry(
                Some(
                    (
                        spec_u64_from_le_bytes(s.subrange(1, 9)),
                        spec_u64_from_le_bytes(s.subrange(9, 17)),
                    ),
                ),
            ),
        )
    } else {
        None
    }
}

impl LPHashTableEntry {
    /// Encoded size of one slot in bytes.
    pub fn bin_size() -> (r: usize)
        ensures
            r == 17,
    {
        8 + 8 + 1
    }

    /// Encode this slot as exactly 17 bytes.
    pub fn serialize(&self) -> (r: Vec<u8>)
        ensures
            r@ == spec_serialize_lp_entry(*self),
            r@.len() == 17,
    {
        match self.0 {
            None => {
                let mut r: Vec<u8> = Vec::new();
                let mut i: usize = 0;
                while i < 17
                    invariant
                        i <= 17,
                        r@.len() == i,
                        forall|j: int| 0 <= j < i ==> r@[j] == 0u8,
                    decreases 17 - i,
                {
                    r.push(0u8);
                    i = i + 1;
                }
                assert(r@ =~= spec_serialize_lp_entry(*self));
                r
            },
            Some((key, value)) => {
                let mut r: Vec<u8> = Vec::new();
                r.push(1u8);
                let mut kb = u64_to_le_bytes(key);
                r.append(&mut kb);
                let mut vb = u64_to_le_bytes(value);
                r.append(&mut vb);
                proof {
                    lemma_auto_spec_u64_to_from_le_bytes();
                }
                assert(r@ =~= spec_serialize_lp_entry(*self));
                r
            },
        }
    }

    /// Decode a slot from a buffer; `None` reports corruption.
    pub fn deserialize(bytes: &[u8]) -> (r: Option<LPHashTableEntry>)
        ensures
            r == spec_deserialize_lp_entry(bytes@),
    {
        if bytes.len() == 0 {
            return None;
        }
        let tag = bytes[0];
        if tag == 0 {
            Some(LPHashTableEntry(None))
        } else if tag == 1 && bytes.len() >= 17 {
            let key = u64_from_le_bytes(slice_subrange(bytes, 1, 9));
            let value = u64_from_le_bytes(slice_subrange(bytes, 9, 17));
            Some(LPHashTableEntry(Some((key, value))))
        } else {
            None
        }
    }
}

/// Every slot round-trips through the 17-byte codec exactly.
pub proof fn lemma_lp_entry_codec_round_trip(e: LPHashTableEntry)
    ensures
        spec_serialize_lp_entry(e).len() == 17,
        spec_deserialize_lp_entry(spec_serialize_lp_entry(e)) == Some(e),
{
    lemma_auto_spec_u64_to_from_le_bytes();
    match e.0 {
        None => {
        },
        Some((key, value)) => {
            let s = spec_serialize_lp_entry(e);
            assert(s.subrange(1, 9) =~= spec_u64_to_le_bytes(key));
            assert(s.subrange(9, 17) =~= spec_u64_to_le_bytes(value));
        },
    }
}

} // verus!

verus! {

/// Count of occupied slots in a slot sequence.
pub closed spec fn count_occ(s: Seq<LPHashTableEntry>) -> int
    decreases s.len(),
{
    if s.len() == 0 {
        0
    } else {
        count_occ(s.drop_last()) + if s.last().0 is Some {
            1int
        } else {
            0int
        }
    }
}

pub proof fn lemma_count_occ_bounds(s: Seq<LPHashTableEntry>)
    ensures
        0 <= count_occ(s) <= s.len(),
    decreases s.len(),
{
    if s.len() > 0 {
        lemma_count_occ_bounds(s.drop_last());
    }
}

pub proof fn lemma_count_occ_push(s: Seq<LPHashTableEntry>, e: LPHashTableEntry)
    ensures
        count_occ(s.push(e)) == count_occ(s) + if e.0 is Some {
            1int
        } else {
            0int
        },
{
    assert(s.push(e).drop_last() =~= s);
    assert(s.push(e).last() == e);
}

pub proof fn lemma_count_occ_update(s: Seq<LPHashTableEntry>, i: int, e: LPHashTableEntry)
    requires
        0 <= i < s.len(),
    ensures
        count_occ(s.update(i, e)) == count_occ(s) - (if s[i].0 is Some {
            1int
        } else {
            0int
        }) + (if e.0 is Some {
            1int
        } else {
            0int
        }),
    decreases s.len(),
{
    if i == s.len() - 1 {
        assert(s.update(i, e).drop_last() =~= s.drop_last());
        assert(s.update(i, e).last() == e);
    } else {
        lemma_count_occ_update(s.drop_last(), i, e);
        assert(s.update(i, e).drop_last() =~= s.drop_last().update(i, e));
        assert(s.update(i, e).last() == s.last());
    }
}

pub proof fn lemma_all_occ_count(s: Seq<LPHashTableEntry>)
    requires
        forall|j: int| 0 <= j < s.len() ==> s[j].0 is Some,
    ensures
        count_occ(s) == s.len(),
    decreases s.len(),
{
    if s.len() > 0 {
        lemma_all_occ_count(s.drop_last());
    }
}

/// A positive power of two.
pub closed spec fn is_pow2(n: int) -> bool
    decreases n,
{
    if n <= 0 {
        false
    } else if n == 1 {
        true
    } else {
        n % 2 == 0 && is_pow2(n / 2)
    }
}

/// Two powers of two within a factor of two of each other are equal.
proof fn lemma_pow2_between(c: int, m: int)
    requires
        is_pow2(c),
        is_pow2(m),
        m <= c < 2 * m,
    ensures
        c == m,
    decreases c,
{
    if c == 1 {
        assert(m <= 1 < 2 * m);
    } else {
        if m == 1 {
            assert(1 <= c < 2);
        } else {
            lemma_pow2_between(c / 2, m / 2);
        }
    }
}

/// A stable 64-bit digest mixing all bits of the key; the same hash is used
/// for the lifetime of a table file.
pub closed spec fn hash_of(key: u64) -> u64 {
    let z1 = key.wrapping_add(0x9E3779B97F4A7C15u64);
    let z2 = (z1 ^ (z1 >> 30u64)).wrapping_mul(0xBF58476D1CE4E5B9u64);
    let z3 = (z2 ^ (z2 >> 27u64)).wrapping_mul(0x94D049BB133111EBu64);
    z3 ^ (z3 >> 31u64)
}

/// The file-backed linear-probing table, modelled on its file image: slot `i`
/// of `slots` stands for the 17 bytes at file offset `17 * i`.
pub struct LPHashTable {
    slots: Vec<LPHashTableEntry>,
    capacity: usize,
    len: usize,
    used_capacity: usize,
    block_size: usize,
}

impl LPHashTable {
    pub closed spec fn spec_capacity(self) -> int {
        self.capacity as int
    }

    pub closed spec fn spec_used_capacity(self) -> int {
        self.used_capacity as int
    }

    pub closed spec fn spec_block_size(self) -> int {
        self.block_size as int
    }

    pub closed spec fn spec_len(self) -> int {
        self.len as int
    }

    pub closed spec fn entry_at(self, i: int) -> Option<(u64, u64)> {
        self.slots@[i].0
    }

    pub closed spec fn occ(self, i: int) -> bool {
        self.entry_at(i) is Some
    }

    pub closed spec fn key_at(self, i: int) -> u64 {
        match self.entry_at(i) {
            Some((k, _)) => k,
            None => 0,
        }
    }

    pub closed spec fn val_at(self, i: int) -> u64 {
        match self.entry_at(i) {
            Some((_, v)) => v,
            None => 0,
        }
    }

    /// The home slot: `hash mod capacity`, folded back by `capacity / 2`
    /// while the addressed cell is not materialized yet.
    pub closed spec fn home_slot(self, key: u64) -> int {
        let cell = (hash_of(key) % (self.capacity as u64)) as int;
        if cell < self.spec_used_capacity() {
            cell
        } else {
            cell - self.spec_capacity() / 2
        }
    }

    /// Position reached after `t` forward probe steps from `a`, wrapping at
    /// `used_capacity`; meaningful for `0 <= a < used_capacity` and
    /// `0 <= t <= used_capacity`.
    pub closed spec fn st(self, a: int, t: int) -> int {
        if a + t < self.spec_used_capacity() {
            a + t
        } else {
            a + t - self.spec_used_capacity()
        }
    }

    /// Number of forward probe steps from `a` to `b`.
    pub closed spec fn dist(self, a: int, b: int) -> int {
        if b >= a {
            b - a
        } else {
            b + self.spec_used_capacity() - a
        }
    }

    /// The structural part of well-formedness.
    pub closed spec fn shape(self) -> bool {
        &&& self.slots@.len() == self.spec_used_capacity()
        &&& 2 <= self.spec_capacity()
        &&& is_pow2(self.spec_capacity())
        &&& self.spec_capacity() % 2 == 0
        &&& self.spec_capacity() / 2 <= self.spec_used_capacity() <= self.spec_capacity()
        &&& 4 <= self.spec_block_size() <= self.spec_used_capacity()
        &&& self.spec_used_capacity() % self.spec_block_size() == 0
        &&& self.spec_capacity() % self.spec_block_size() == 0
        &&& self.spec_len() == count_occ(self.slots@)
        &&& 17 * self.spec_capacity() <= usize::MAX
    }

    /// Well-formedness: structure plus the at-rest load bound.
    pub closed spec fn wf(self) -> bool {
        &&& self.shape()
        &&& 2 * self.spec_len() <= self.spec_used_capacity()
    }

    /// Growth headroom: one more block (and a capacity doubling) keeps the
    /// file byte length within `usize`.
    pub open spec fn can_grow(self) -> bool {
        34 * self.spec_used_capacity() <= usize::MAX
    }

    /// The probe-chain invariant: every occupied slot is reachable from its
    /// key's home slot along an unbroken run of occupied slots.
    pub closed spec fn chains(self) -> bool {
        forall|i: int, t: int|
            0 <= i < self.spec_used_capacity() && self.occ(i) && 0 <= t <= self.dist(
                self.home_slot(self.key_at(i)),
                i,
            ) ==> self.occ(#[trigger] self.st(self.home_slot(self.key_at(i)), t))
    }

    /// No key occupies two slots.
    pub closed spec fn unique(self) -> bool {
        forall|i: int, j: int|
            0 <= i < self.spec_used_capacity() && 0 <= j < self.spec_used_capacity() && i != j
                && #[trigger] self.occ(i) && #[trigger] self.occ(j) ==> self.key_at(i)
                != self.key_at(j)
    }

    pub closed spec fn valid_slot(self, i: int, key: u64) -> bool {
        0 <= i < self.spec_used_capacity() && self.occ(i) && self.key_at(i) == key
    }

    pub closed spec fn has_key(self, key: u64) -> bool {
        exists|i: int| self.valid_slot(i, key)
    }

    pub closed spec fn slot_of(self, key: u64) -> int {
        choose|i: int| self.valid_slot(i, key)
    }
}

impl View for LPHashTable {
    type V = Map<u64, u64>;

    closed spec fn view(&self) -> Map<u64, u64> {
        Map::new(|k: u64| self.has_key(k), |k: u64| self.val_at(self.slot_of(k)))
    }
}

} // verus!

verus! {

impl LPHashTable {
    /// What a probe for `key` that stopped at `pos` observed: the slot at
    /// `pos` is `key`'s or empty, and every slot strictly before it on the
    /// probe path is occupied by some other key.
    pub closed spec fn probe_result(self, key: u64, pos: int) -> bool {
        &&& 0 <= pos < self.spec_used_capacity()
        &&& (self.occ(pos) ==> self.key_at(pos) == key)
        &&& forall|t: int|
            0 <= t < self.dist(self.home_slot(key), pos) ==> #[trigger] self.occ(
                self.st(self.home_slot(key), t),
            )
        &&& forall|t: int|
            0 <= t < self.dist(self.home_slot(key), pos) ==> #[trigger] self.key_at(
                self.st(self.home_slot(key), t),
            ) != key
    }

    /// The capacity fields of `post` agree with `self`; only slots and the
    /// item count may differ.
    pub closed spec fn same_frame(self, post: LPHashTable) -> bool {
        &&& post.spec_capacity() == self.spec_capacity()
        &&& post.spec_used_capacity() == self.spec_used_capacity()
        &&& post.spec_block_size() == self.spec_block_size()
    }

    /// The home slot lies inside the materialized part of the file.
    pub proof fn lemma_home_in_range(self, key: u64)
        requires
            2 <= self.spec_capacity(),
            self.spec_capacity() % 2 == 0,
            self.spec_capacity() / 2 <= self.spec_used_capacity() <= self.spec_capacity(),
        ensures
            0 <= self.home_slot(key) < self.spec_used_capacity(),
    {
        let c = hash_of(key) % (self.capacity as u64);
        assert(c < self.capacity as u64);
    }
}

/// After a probe for `key` stopped at `pos`, the table speaks: if the slot is
/// occupied it is the unique slot of `key` and carries the mapped value; if it
/// is empty, `key` is nowhere in the table.
proof fn lemma_probe_decides(t: LPHashTable, key: u64, pos: int)
    requires
        t.shape(),
        t.probe_result(key, pos),
        t.chains(),
        t.unique(),
    ensures
        t.has_key(key) ==> t.occ(pos) && t.key_at(pos) == key && t.slot_of(key) == pos && t@[key]
            == t.val_at(pos) && t@.dom().contains(key),
        !t.has_key(key) ==> !t.occ(pos),
        t@.dom().contains(key) == t.has_key(key),
{
    let u = t.spec_used_capacity();
    let home = t.home_slot(key);
    t.lemma_home_in_range(key);
    let s = t.dist(home, pos);
    if t.has_key(key) {
        let i = choose|i: int| t.valid_slot(i, key);
        assert(t.home_slot(t.key_at(i)) == home);
        let d = t.dist(home, i);
        assert(0 <= d < u);
        assert(t.st(home, d) == i);
        if s > d {
            assert(t.occ(t.st(home, d)) && t.key_at(t.st(home, d)) != key);
            assert(false);
        } else {
            if !t.occ(pos) {
                assert(t.occ(t.st(home, s)));
                assert(t.st(home, s) == pos);
                assert(false);
            }
            assert(t.key_at(pos) == key);
            assert(t.valid_slot(pos, key));
            assert forall|j: int| t.valid_slot(j, key) implies j == pos by {
                if j != pos {
                    assert(t.occ(j) && t.occ(pos));
                }
            }
            assert(t.slot_of(key) == pos);
        }
    } else {
        if t.occ(pos) {
            assert(t.valid_slot(pos, key));
            assert(false);
        }
    }
}

/// Writing `(key, value)` into the slot a probe for `key` stopped at keeps
/// every probe chain unbroken.
proof fn lemma_write_chains(pre: LPHashTable, post: LPHashTable, key: u64, value: u64, p: int)
    requires
        pre.shape(),
        pre.same_frame(post),
        0 <= p < pre.spec_used_capacity(),
        post.slots@ == pre.slots@.update(p, LPHashTableEntry(Some((key, value)))),
        pre.probe_result(key, p),
        pre.entry_at(p) is None || pre.key_at(p) == key,
        pre.chains(),
    ensures
        post.chains(),
{
    let u = pre.spec_used_capacity();
    pre.lemma_home_in_range(key);
    let home = pre.home_slot(key);
    let d = pre.dist(home, p);
    assert forall|i: int, t: int|
        0 <= i < u && post.occ(i) && 0 <= t <= post.dist(
            post.home_slot(post.key_at(i)),
            i,
        ) implies post.occ(#[trigger] post.st(post.home_slot(post.key_at(i)), t)) by {
        if i == p {
            assert(post.key_at(p) == key);
            assert(post.home_slot(key) == home);
            assert(post.dist(home, p) == d);
            let x = post.st(home, t);
            assert(x == pre.st(home, t));
            if t < d {
                assert(pre.occ(pre.st(home, t)));
                assert(post.occ(x));
            } else {
                assert(t == d);
                assert(pre.st(home, d) == p);
                assert(post.occ(p));
            }
        } else {
            assert(pre.occ(i));
            assert(post.key_at(i) == pre.key_at(i));
            let k2 = pre.key_at(i);
            let h2 = pre.home_slot(k2);
            assert(post.home_slot(k2) == h2);
            assert(post.dist(h2, i) == pre.dist(h2, i));
            assert(pre.occ(pre.st(h2, t)));
            assert(post.st(h2, t) == pre.st(h2, t));
        }
    }
}

/// Writing `(key, value)` into a probe-found slot (empty only when `key` is
/// absent) keeps keys unique and inserts the pair into the table's map.
proof fn lemma_write_insert(pre: LPHashTable, post: LPHashTable, key: u64, value: u64, p: int)
    requires
        pre.shape(),
        pre.same_frame(post),
        0 <= p < pre.spec_used_capacity(),
        post.slots@ == pre.slots@.update(p, LPHashTableEntry(Some((key, value)))),
        pre.entry_at(p) is None || pre.key_at(p) == key,
        pre.entry_at(p) is None ==> !pre.has_key(key),
        pre.unique(),
    ensures
        post.unique(),
        post@ == pre@.insert(key, value),
        post.has_key(key),
        forall|k: u64| #[trigger] post.has_key(k) <==> pre.has_key(k) || k == key,
{
    let u = pre.spec_used_capacity();
    assert forall|i: int, j: int|
        0 <= i < u && 0 <= j < u && i != j && #[trigger] post.occ(i)
            && #[trigger] post.occ(j) implies post.key_at(i) != post.key_at(j) by {
        if i != p && j != p {
            assert(pre.occ(i) && pre.occ(j));
        } else {
            let o = if i == p {
                j
            } else {
                i
            };
            assert(pre.occ(o));
            assert(post.key_at(o) == pre.key_at(o));
            if pre.entry_at(p) is None {
                if pre.key_at(o) == key {
                    assert(pre.valid_slot(o, key));
                    assert(false);
                }
            } else {
                assert(pre.key_at(p) == key);
                if pre.key_at(o) == key {
                    assert(pre.occ(p) && pre.occ(o));
                    assert(false);
                }
            }
        }
    }
    assert(post.occ(p) && post.key_at(p) == key);
    assert(post.valid_slot(p, key));
    assert forall|k: u64| #[trigger] post.has_key(k) <==> pre.has_key(k) || k == key by {
        if k == key {
            assert(post.has_key(key));
        } else {
            if pre.has_key(k) {
                let i = choose|i: int| pre.valid_slot(i, k);
                assert(i != p || pre.key_at(p) == k);
                assert(i != p);
                assert(post.valid_slot(i, k));
            }
            if post.has_key(k) {
                let i = choose|i: int| post.valid_slot(i, k);
                assert(i != p);
                assert(pre.valid_slot(i, k));
            }
        }
    }
    assert forall|k: u64| pre.has_key(k) && k != key implies post.val_at(post.slot_of(k))
        == pre.val_at(pre.slot_of(k)) && post.has_key(k) by {
        let i = choose|i: int| pre.valid_slot(i, k);
        assert(i != p);
        assert(post.valid_slot(i, k));
        assert(pre.valid_slot(pre.slot_of(k), k));
        assert(post.valid_slot(post.slot_of(k), k));
        assert(pre.slot_of(k) != p);
        assert(post.key_at(post.slot_of(k)) == k);
        assert(post.slot_of(k) != p);
        assert(pre.valid_slot(post.slot_of(k), k));
        if pre.slot_of(k) != post.slot_of(k) {
            assert(pre.occ(pre.slot_of(k)) && pre.occ(post.slot_of(k)));
            assert(false);
        }
    }
    assert forall|j: int| post.valid_slot(j, key) implies j == p by {
        if j != p {
            assert(post.occ(j) && post.occ(p));
            assert(false);
        }
    }
    assert(post.slot_of(key) == p);
    assert(post.val_at(p) == value);
    assert(post@ =~= pre@.insert(key, value));
}

/// Clearing an occupied slot keeps keys unique and removes exactly that
/// slot's key from the table's map.
proof fn lemma_write_clear(pre: LPHashTable, post: LPHashTable, p: int)
    requires
        pre.shape(),
        pre.same_frame(post),
        0 <= p < pre.spec_used_capacity(),
        pre.occ(p),
        post.slots@ == pre.slots@.update(p, LPHashTableEntry(None)),
        pre.unique(),
    ensures
        post.unique(),
        post@ == pre@.remove(pre.key_at(p)),
        !post.has_key(pre.key_at(p)),
        pre@.dom().contains(pre.key_at(p)),
        pre@[pre.key_at(p)] == pre.val_at(p),
{
    let u = pre.spec_used_capacity();
    let key = pre.key_at(p);
    assert forall|i: int, j: int|
        0 <= i < u && 0 <= j < u && i != j && #[trigger] post.occ(i)
            && #[trigger] post.occ(j) implies post.key_at(i) != post.key_at(j) by {
        assert(pre.occ(i) && pre.occ(j));
    }
    assert(pre.valid_slot(p, key));
    assert forall|j: int| pre.valid_slot(j, key) implies j == p by {
        if j != p {
            assert(pre.occ(j) && pre.occ(p));
            assert(false);
        }
    }
    assert(pre.slot_of(key) == p);
    if post.has_key(key) {
        let i = choose|i: int| post.valid_slot(i, key);
        assert(i != p);
        assert(pre.valid_slot(i, key));
        assert(false);
    }
    assert forall|k: u64| k != key implies (post.has_key(k) <==> pre.has_key(k)) by {
        if pre.has_key(k) {
            let i = choose|i: int| pre.valid_slot(i, k);
            assert(i != p);
            assert(post.valid_slot(i, k));
        }
        if post.has_key(k) {
            let i = choose|i: int| post.valid_slot(i, k);
            assert(i != p);
            assert(pre.valid_slot(i, k));
        }
    }
    assert forall|k: u64| k != key && pre.has_key(k) implies post.val_at(post.slot_of(k))
        == pre.val_at(pre.slot_of(k)) by {
        assert(pre.valid_slot(pre.slot_of(k), k));
        assert(pre.slot_of(k) != p);
        assert(post.valid_slot(pre.slot_of(k), k));
        assert(post.valid_slot(post.slot_of(k), k));
        assert(post.slot_of(k) != p);
        assert(pre.valid_slot(post.slot_of(k), k));
        if pre.slot_of(k) != post.slot_of(k) {
            assert(pre.occ(pre.slot_of(k)) && pre.occ(post.slot_of(k)));
            assert(false);
        }
    }
    assert(post@ =~= pre@.remove(key));
}

} // verus!

verus! {

pub proof fn lemma_all_none_count(s: Seq<LPHashTableEntry>)
    requires
        forall|j: int| 0 <= j < s.len() ==> s[j].0 is None,
    ensures
        count_occ(s) == 0,
    decreases s.len(),
{
    if s.len() > 0 {
        lemma_all_none_count(s.drop_last());
    }
}

pub proof fn lemma_occ_count_pos(s: Seq<LPHashTableEntry>, i: int)
    requires
        0 <= i < s.len(),
        s[i].0 is Some,
    ensures
        count_occ(s) >= 1,
    decreases s.len(),
{
    if i < s.len() - 1 {
        lemma_occ_count_pos(s.drop_last(), i);
        lemma_count_occ_bounds(s.drop_last());
    } else {
        lemma_count_occ_bounds(s.drop_last());
    }
}

/// Extending the slot file with empty slots (and retargeting the address
/// fields) neither adds nor moves any stored pair.
proof fn lemma_view_extend(pre: LPHashTable, post: LPHashTable)
    requires
        pre.slots@.len() == pre.spec_used_capacity(),
        post.slots@.len() == post.spec_used_capacity(),
        post.slots@.len() >= pre.slots@.len(),
        post.slots@.subrange(0, pre.slots@.len() as int) == pre.slots@,
        forall|j: int| pre.slots@.len() <= j < post.slots@.len() ==> post.slots@[j].0 is None,
    ensures
        forall|k: u64| #[trigger] post.has_key(k) == pre.has_key(k),
        pre.unique() ==> post.unique() && post@ == pre@,
{
    let n = pre.slots@.len() as int;
    assert forall|i: int| 0 <= i < n implies post.slots@[i] == pre.slots@[i] by {
        assert(post.slots@.subrange(0, n)[i] == post.slots@[i]);
    }
    assert forall|k: u64| #[trigger] post.has_key(k) == pre.has_key(k) by {
        if pre.has_key(k) {
            let i = choose|i: int| pre.valid_slot(i, k);
            assert(post.valid_slot(i, k));
        }
        if post.has_key(k) {
            let i = choose|i: int| post.valid_slot(i, k);
            assert(i < n);
            assert(pre.valid_slot(i, k));
        }
    }
    if pre.unique() {
        assert forall|i: int, j: int|
            0 <= i < post.spec_used_capacity() && 0 <= j < post.spec_used_capacity() && i != j
                && #[trigger] post.occ(i) && #[trigger] post.occ(j) implies post.key_at(i)
            != post.key_at(j) by {
            assert(i < n && j < n);
            assert(pre.occ(i) && pre.occ(j));
        }
        assert forall|k: u64| pre.has_key(k) implies post.val_at(post.slot_of(k)) == pre.val_at(
            pre.slot_of(k),
        ) by {
            assert(pre.valid_slot(pre.slot_of(k), k));
            assert(post.has_key(k));
            assert(post.valid_slot(post.slot_of(k), k));
            assert(post.slot_of(k) < n);
            assert(pre.valid_slot(post.slot_of(k), k));
            assert(post.valid_slot(pre.slot_of(k), k));
            if pre.slot_of(k) != post.slot_of(k) {
                assert(pre.occ(pre.slot_of(k)) && pre.occ(post.slot_of(k)));
                assert(false);
            }
        }
        assert(post@ =~= pre@);
    }
}

impl LPHashTable {
    /// The fixed key digest.
    fn hash(key: u64) -> (r: u64)
        ensures
            r == hash_of(key),
    {
        let z1 = key.wrapping_add(0x9E3779B97F4A7C15u64);
        let z2 = (z1 ^ (z1 >> 30u64)).wrapping_mul(0xBF58476D1CE4E5B9u64);
        let z3 = (z2 ^ (z2 >> 27u64)).wrapping_mul(0x94D049BB133111EBu64);
        z3 ^ (z3 >> 31u64)
    }

    /// Map a key to its home slot under the current addressing window.
    fn key_to_pos(&self, key: u64) -> (pos: usize)
        requires
            2 <= self.spec_capacity(),
            self.spec_capacity() % 2 == 0,
            self.spec_capacity() / 2 <= self.spec_used_capacity() <= self.spec_capacity(),
        ensures
            pos as int == self.home_slot(key),
            pos < self.used_capacity,
    {
        proof {
            self.lemma_home_in_range(key);
        }
        let cell_num = Self::hash(key) % (self.capacity as u64);
        let cell = cell_num as usize;
        if cell < self.used_capacity {
            cell
        } else {
            cell - self.capacity / 2
        }
    }

    /// Walk forward from the key's home slot, wrapping at `used_capacity`,
    /// to the first slot that is empty or holds the key.
    fn read_key(&self, key: u64) -> (r: (usize, LPHashTableEntry))
        requires
            self.shape(),
            count_occ(self.slots@) < self.spec_used_capacity(),
        ensures
            self.probe_result(key, r.0 as int),
            r.1 == self.slots@[r.0 as int],
    {
        let mut pos = self.key_to_pos(key);
        let ghost home = self.home_slot(key);
        let ghost mut t: int = 0int;
        proof {
            self.lemma_home_in_range(key);
        }
        loop
            invariant
                self.shape(),
                count_occ(self.slots@) < self.spec_used_capacity(),
                0 <= home < self.spec_used_capacity(),
                home == self.home_slot(key),
                0 <= t < self.spec_used_capacity(),
                pos as int == self.st(home, t),
                pos < self.used_capacity,
                t == self.dist(home, pos as int),
                forall|s: int| 0 <= s < t ==> #[trigger] self.occ(self.st(home, s)),
                forall|s: int| 0 <= s < t ==> #[trigger] self.key_at(self.st(home, s)) != key,
            decreases self.spec_used_capacity() - t,
        {
            let cur = self.slots[pos];
            match cur.0 {
                None => {
                    return (pos, cur);
                },
                Some((k, _)) => {
                    if k == key {
                        return (pos, cur);
                    }
                    let ghost oldpos = pos as int;
                    pos = pos + 1;
                    if pos >= self.used_capacity {
                        pos = 0;
                    }
                    proof {
                        assert(self.st(home, t) == oldpos);
                        assert(self.occ(oldpos));
                        assert(self.key_at(oldpos) == k);
                        t = t + 1;
                        assert forall|s: int| 0 <= s < t implies #[trigger] self.occ(
                            self.st(home, s),
                        ) by {
                            if s == t - 1 {
                                assert(self.st(home, s) == oldpos);
                            }
                        }
                        assert forall|s: int| 0 <= s < t implies #[trigger] self.key_at(
                            self.st(home, s),
                        ) != key by {
                            if s == t - 1 {
                                assert(self.st(home, s) == oldpos);
                            }
                        }
                        if t == self.spec_used_capacity() {
                            assert forall|j: int|
                                0 <= j < self.spec_used_capacity() implies self.slots@[j].0
                                is Some by {
                                let d = self.dist(home, j);
                                assert(self.st(home, d) == j);
                                assert(self.occ(self.st(home, d)));
                            }
                            lemma_all_occ_count(self.slots@);
                            assert(false);
                        }
                    }
                },
            }
        }
    }

    /// Place `(key, value)` at the probe-found slot for `key`, counting the
    /// slot as newly occupied when it was empty.
    fn insert_slot(&mut self, key: u64, value: u64) -> (pos: usize)
        requires
            old(self).shape(),
            count_occ(old(self).slots@) < old(self).spec_used_capacity(),
        ensures
            final(self).shape(),
            old(self).same_frame(*final(self)),
            (pos as int) < old(self).spec_used_capacity(),
            old(self).probe_result(key, pos as int),
            final(self).slots@ == old(self).slots@.update(
                pos as int,
                LPHashTableEntry(Some((key, value))),
            ),
            final(self).spec_len() == old(self).spec_len() + (if old(self).occ(pos as int) {
                0int
            } else {
                1int
            }),
    {
        let (pos, pos_entry) = self.read_key(key);
        let ghost pre = *self;
        match pos_entry.0 {
            None => {
                proof {
                    lemma_count_occ_bounds(self.slots@);
                }
                self.len = self.len + 1;
            },
            Some(_) => {
            },
        }
        self.slots.set(pos, LPHashTableEntry(Some((key, value))));
        proof {
            lemma_count_occ_update(pre.slots@, pos as int, LPHashTableEntry(Some((key, value))));
        }
        pos
    }
}

} // verus!

verus! {

/// The byte image of a slot file: the concatenation of the 17-byte encodings
/// of its slots.
pub closed spec fn spec_lp_file_image(s: Seq<LPHashTableEntry>) -> Seq<u8>
    decreases s.len(),
{
    if s.len() == 0 {
        Seq::empty()
    } else {
        spec_lp_file_image(s.drop_last()) + spec_serialize_lp_entry(s.last())
    }
}

pub proof fn lemma_lp_file_image_len(s: Seq<LPHashTableEntry>)
    ensures
        spec_lp_file_image(s).len() == 17 * s.len(),
    decreases s.len(),
{
    if s.len() > 0 {
        lemma_lp_file_image_len(s.drop_last());
        lemma_lp_entry_codec_round_trip(s.last());
    }
}

impl LPHashTable {
    /// The byte image of the table's backing file.
    pub closed spec fn file_image(self) -> Seq<u8> {
        spec_lp_file_image(self.slots@)
    }

    /// Build a fresh table: the smallest power-of-two slot count whose byte
    /// size reaches 2 MiB, all slots empty. (Opening an existing file is not
    /// supported; the embedding program creates the file from the image.)
    pub fn new(options: &LPHashTableOptions) -> (r: LPHashTable)
        ensures
            r.wf(),
            r.chains(),
            r.unique(),
            r@ == Map::<u64, u64>::empty(),
            r.spec_len() == 0,
            r.spec_used_capacity() == r.spec_capacity(),
            r.spec_block_size() == r.spec_capacity(),
            r.can_grow(),
            r.spec_capacity() == 131072,
            17 * r.spec_used_capacity() >= 2 * 1024 * 1024,
    {
        let _ = &options.filename;
        let mut capacity: usize = 1;
        while capacity * 17 < 2 * 1024 * 1024
            invariant
                1 <= capacity < 2 * 1024 * 1024,
                capacity == 1 || capacity % 2 == 0,
                is_pow2(capacity as int),
                capacity == 1 || 17 * capacity < 4 * 1024 * 1024,
            decreases 2 * 1024 * 1024 - capacity,
        {
            capacity = capacity * 2;
            proof {
                assert((capacity as int) % 2 == 0);
            }
        }
        proof {
            assert(is_pow2(131072int)) by {
                reveal_with_fuel(is_pow2, 20);
            }
            assert(is_pow2(65536int)) by {
                reveal_with_fuel(is_pow2, 20);
            }
            if capacity >= 131072 {
                lemma_pow2_between(capacity as int, 131072int);
            } else {
                lemma_pow2_between(capacity as int, 65536int);
                assert(false);
            }
            assert(capacity == 131072);
        }
        let mut slots: Vec<LPHashTableEntry> = Vec::new();
        let mut i: usize = 0;
        while i < capacity
            invariant
                i <= capacity,
                slots@.len() == i,
                forall|j: int| 0 <= j < i ==> slots@[j].0 is None,
            decreases capacity - i,
        {
            slots.push(LPHashTableEntry(None));
            i = i + 1;
        }
        proof {
            lemma_all_none_count(slots@);
        }
        let r = LPHashTable {
            slots,
            capacity,
            len: 0,
            used_capacity: capacity,
            block_size: capacity,
        };
        proof {
            assert forall|k: u64| !r.has_key(k) by {
                if r.has_key(k) {
                    let i = choose|i: int| r.valid_slot(i, k);
                    assert(r.occ(i));
                    assert(false);
                }
            }
            assert(r@ =~= Map::<u64, u64>::empty());
        }
        r
    }

    /// Grow by one block when the load factor reaches 1/2: double the address
    /// space if it is exhausted, append a block of empty slots, then rehome
    /// the band of old slots whose address mapping changed.
    fn resize_if_needed(&mut self)
        requires
            old(self).shape(),
            2 * old(self).spec_len() <= old(self).spec_used_capacity() + 2,
            34 * old(self).spec_used_capacity() <= usize::MAX,
        ensures
            final(self).wf(),
            final(self).spec_block_size() == old(self).spec_block_size(),
            final(self).spec_capacity() >= old(self).spec_capacity(),
            old(self).spec_used_capacity() <= final(self).spec_used_capacity(),
            final(self).spec_used_capacity() <= old(self).spec_used_capacity() + old(self).spec_block_size(),
            final(self).spec_len() <= old(self).spec_len(),
            2 * old(self).spec_len() < old(self).spec_used_capacity() ==> *final(self) == *old(self),
            old(self).unique() ==> final(self).unique() && final(self)@ == old(self)@
                && final(self).spec_len() == old(self).spec_len(),
    {
        if 2 * self.len < self.used_capacity {
            return ;
        }
        let ghost pre = *self;
        let ghost pview = pre@;
        if self.used_capacity == self.capacity {
            self.capacity = 2 * self.capacity;
        }
        let ghost c2 = self.capacity;
        let mut i: usize = 0;
        while i < self.block_size
            invariant
                i <= self.block_size,
                self.capacity == c2,
                self.used_capacity == pre.used_capacity,
                self.block_size == pre.block_size,
                self.len == pre.len,
                self.slots@.len() == pre.slots@.len() + i,
                forall|j: int| 0 <= j < pre.slots@.len() ==> self.slots@[j] == pre.slots@[j],
                forall|j: int| pre.slots@.len() <= j < self.slots@.len() ==> self.slots@[j].0 is None,
                count_occ(self.slots@) == count_occ(pre.slots@),
            decreases self.block_size - i,
        {
            let ghost before = self.slots@;
            self.slots.push(LPHashTableEntry(None));
            proof {
                lemma_count_occ_push(before, LPHashTableEntry(None));
            }
            i = i + 1;
        }
        let start = self.used_capacity - self.capacity / 2;
        self.used_capacity = self.used_capacity + self.block_size;
        let ghost g = *self;
        proof {
            assert(g.slots@.subrange(0, pre.slots@.len() as int) =~= pre.slots@);
            lemma_view_extend(pre, g);
            let bs = pre.spec_block_size();
            let u0 = pre.spec_used_capacity();
            let cc = g.spec_capacity();
            vstd::arithmetic::div_mod::lemma_mod_multiples_vanish(1, u0, bs);
            if pre.spec_used_capacity() == pre.spec_capacity() {
                assert(cc == 2 * pre.spec_capacity());
                assert(is_pow2(cc)) by {
                    assert(cc % 2 == 0 && cc / 2 == pre.spec_capacity());
                }
                vstd::arithmetic::div_mod::lemma_fundamental_div_mod(pre.spec_capacity(), bs);
                let q = pre.spec_capacity() / bs;
                vstd::arithmetic::div_mod::lemma_mod_multiples_vanish(2 * q, 0int, bs);
                assert(bs * (2 * q) == cc) by (nonlinear_arith)
                    requires
                        cc == 2 * (bs * q),
                ;
                assert(cc % bs == 0int % bs);
            } else {
                vstd::arithmetic::div_mod::lemma_fundamental_div_mod(u0, bs);
                vstd::arithmetic::div_mod::lemma_fundamental_div_mod(cc, bs);
                let a = u0 / bs;
                let b = cc / bs;
                assert(u0 + bs <= cc) by (nonlinear_arith)
                    requires
                        u0 == bs * a,
                        cc == bs * b,
                        u0 < cc,
                        bs > 0,
                ;
            }
            assert(g.shape());
        }
        let block_size = self.block_size;
        let mut p = start;
        while p < start + block_size
            invariant
                self.shape(),
                start + block_size <= self.spec_used_capacity(),
                start <= p,
                self.capacity == g.capacity,
                self.used_capacity == g.used_capacity,
                self.block_size == g.block_size,
                block_size == g.block_size,
                self.spec_len() <= g.spec_len(),
                2 * g.spec_len() + 2 <= g.spec_used_capacity(),
                pre.unique() ==> self.unique() && self@ == pview && self.spec_len() == g.spec_len(),
            decreases start + block_size - p,
        {
            let e = self.slots[p];
            match e.0 {
                Some((k, v)) => {
                    let new_pos = self.key_to_pos(k);
                    if new_pos != p {
                        let ghost s0 = *self;
                        proof {
                            lemma_occ_count_pos(self.slots@, p as int);
                            lemma_count_occ_bounds(self.slots@);
                        }
                        self.len = self.len - 1;
                        self.slots.set(p, LPHashTableEntry(None));
                        proof {
                            lemma_count_occ_update(s0.slots@, p as int, LPHashTableEntry(None));
                            if pre.unique() {
                                lemma_write_clear(s0, *self, p as int);
                            }
                        }
                        let ghost s1 = *self;
                        let pos2 = self.insert_slot(k, v);
                        proof {
                            if pre.unique() {
                                assert(s1.entry_at(pos2 as int) is None
                                    || s1.key_at(pos2 as int) == k);
                                if s1.occ(pos2 as int) {
                                    assert(s1.valid_slot(pos2 as int, k));
                                    assert(false);
                                }
                                lemma_write_insert(s1, *self, k, v, pos2 as int);
                                assert(s0@[k] == s0.val_at(p as int));
                                assert(self@ =~= pview);
                            }
                        }
                    }
                },
                None => {
                },
            }
            p = p + 1;
        }
    }
}

} // verus!

verus! {

use crate::hash_table::HashTable;

impl HashTable for LPHashTable {
    open spec fn inv(&self) -> bool {
        self.wf()
    }

    open spec fn set_pre(&self, key: u64, value: u64) -> bool {
        self.can_grow()
    }

    /// A `set` keeps the growth policy's bookkeeping moving forward; on a
    /// table whose probe chains are intact and whose keys are unique it
    /// stores exactly `key -> value`, counts the key once, and — when no
    /// growth is triggered — keeps every probe chain intact.
    open spec fn set_post(&self, post: &Self, key: u64, value: u64) -> bool {
        &&& post.spec_block_size() == self.spec_block_size()
        &&& post.spec_capacity() >= self.spec_capacity()
        &&& self.spec_used_capacity() <= post.spec_used_capacity()
        &&& post.spec_used_capacity() <= self.spec_used_capacity() + self.spec_block_size()
        &&& (self.chains() && self.unique() ==> {
            let fresh: int = if self@.dom().contains(key) {
                0int
            } else {
                1int
            };
            &&& post.unique()
            &&& post@ == self@.insert(key, value)
            &&& post.spec_len() == self.spec_len() + fresh
            &&& (2 * (self.spec_len() + fresh) < self.spec_used_capacity() ==> post.chains()
                && post.spec_used_capacity() == self.spec_used_capacity() && post.spec_capacity()
                == self.spec_capacity())
        })
    }

    /// On a table with intact chains and unique keys, `get` returns exactly
    /// the stored value; a hit always names a stored key.
    open spec fn get_post(&self, key: u64, r: Option<u64>) -> bool {
        &&& (self.chains() && self.unique() ==> r == (if self@.dom().contains(key) {
            Some(self@[key])
        } else {
            None::<u64>
        }))
        &&& (r is Some ==> self@.dom().contains(key))
    }

    open spec fn remove_pre(&self, key: u64) -> bool {
        true
    }

    /// `remove` clears the probe-found slot; it does not promise to keep
    /// probe chains intact (clearing a slot can orphan later entries of the
    /// same run — a known limitation of the design).
    open spec fn remove_post(&self, post: &Self, key: u64) -> bool {
        &&& post.spec_capacity() == self.spec_capacity()
        &&& post.spec_used_capacity() == self.spec_used_capacity()
        &&& post.spec_block_size() == self.spec_block_size()
        &&& post.spec_len() <= self.spec_len()
        &&& (self.chains() && self.unique() ==> post.unique() && post@ == self@.remove(key)
            && post.spec_len() == self.spec_len() - (if self@.dom().contains(key) {
            1int
        } else {
            0int
        }))
    }

    open spec fn len_post(&self, r: usize) -> bool {
        r == self.spec_len()
    }

    open spec fn size_pre(&self) -> bool {
        true
    }

    /// The byte footprint is the file image's length: 17 bytes per slot.
    open spec fn size_post(&self, r: usize) -> bool {
        r == 17 * self.spec_used_capacity() && r == self.file_image().len()
    }

    fn set(&mut self, key: u64, value: u64) {
        let ghost pre = *self;
        let pos = self.insert_slot(key, value);
        let ghost mid = *self;
        proof {
            if pre.chains() && pre.unique() {
                lemma_probe_decides(pre, key, pos as int);
                lemma_write_insert(pre, mid, key, value, pos as int);
                lemma_write_chains(pre, mid, key, value, pos as int);
            }
        }
        self.resize_if_needed();
        proof {
            if pre.chains() && pre.unique() {
                assert(self@ == pre@.insert(key, value));
            }
        }
    }

    fn get(&self, key: u64) -> (r: Option<u64>) {
        let (pos, pos_entry) = self.read_key(key);
        proof {
            if self.chains() && self.unique() {
                lemma_probe_decides(*self, key, pos as int);
            }
            if self.occ(pos as int) {
                assert(self.valid_slot(pos as int, key));
            }
        }
        match pos_entry.0 {
            None => None,
            Some((_, value)) => Some(value),
        }
    }

    fn remove(&mut self, key: u64) {
        let ghost pre = *self;
        let (pos, pos_entry) = self.read_key(key);
        match pos_entry.0 {
            Some(_) => {
                proof {
                    lemma_occ_count_pos(self.slots@, pos as int);
                }
                self.len = self.len - 1;
                self.slots.set(pos, LPHashTableEntry(None));
                proof {
                    lemma_count_occ_update(pre.slots@, pos as int, LPHashTableEntry(None));
                    if pre.chains() && pre.unique() {
                        lemma_probe_decides(pre, key, pos as int);
                        lemma_write_clear(pre, *self, pos as int);
                    }
                }
            },
            None => {
                proof {
                    if pre.chains() && pre.unique() {
                        lemma_probe_decides(pre, key, pos as int);
                        assert(pre@.remove(key) =~= pre@);
                    }
                }
            },
        }
    }

    fn len(&self) -> (r: usize) {
        self.len
    }

    fn on_disk_size(&self) -> (r: usize) {
        proof {
            lemma_lp_file_image_len(self.slots@);
        }
        17 * self.used_capacity
    }
}

impl LPHashTable {
    /// The bytes of the backing file, slot by slot; an embedding program
    /// writes exactly these bytes to keep the file in sync.
    pub fn file_bytes(&self) -> (r: Vec<u8>)
        requires
            self.wf(),
        ensures
            r@ == self.file_image(),
    {
        let mut r: Vec<u8> = Vec::new();
        let mut i: usize = 0;
        while i < self.slots.len()
            invariant
                i <= self.slots@.len(),
                r@ == spec_lp_file_image(self.slots@.subrange(0, i as int)),
            decreases self.slots@.len() - i,
        {
            let mut piece = self.slots[i].serialize();
            r.append(&mut piece);
            proof {
                assert(self.slots@.subrange(0, i + 1).drop_last() =~= self.slots@.subrange(
                    0,
                    i as int,
                ));
                assert(self.slots@.subrange(0, i + 1).last() == self.slots@[i as int]);
            }
            i = i + 1;
        }
        proof {
            assert(self.slots@.subrange(0, self.slots@.len() as int) =~= self.slots@);
        }
        r
    }
}

/// Growth invariant: a well-formed table always materializes between half
/// and all of its address space, and its file holds exactly 17 bytes per
/// materialized slot.
pub proof fn lemma_lp_growth_invariant(t: LPHashTable)
    requires
        t.wf(),
    ensures
        t.spec_capacity() / 2 <= t.spec_used_capacity() <= t.spec_capacity(),
        t.file_image().len() == 17 * t.spec_used_capacity(),
{
    lemma_lp_file_image_len(t.slots@);
}

} // verus!
