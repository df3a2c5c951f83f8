//! A log-structured merge tree: an in-memory write buffer, immutable sorted
//! disk segments with tombstones, monotonic revision numbering, and tiered
//! compaction.

use vstd::bytes::*;
use vstd::prelude::*;
use vstd::slice::*;

pub mod compaction;

verus! {

/// One record of a disk segment: an insertion of `(key, value)` or a
/// tombstone for `key`, both stamped with the revision of the flush that
/// produced the segment the record was first written to.
#[derive(Clone, Copy, Debug, PartialEq, Eq)]
pub enum DisktableEntry {
    Insert { rev: u64, key: u64, value: u64 },
    Delete { rev: u64, key: u64 },
}

impl DisktableEntry {
    /// The key this record speaks about.
    pub open spec fn spec_key(self) -> u64 {
        match self {
            DisktableEntry::Insert { rev: _, key, value: _ } => key,
            DisktableEntry::Delete { rev: _, key } => key,
        }
    }

    /// The revision stamped on this record.
    pub open spec fn spec_rev(self) -> u64 {
        match self {
            DisktableEntry::Insert { rev, key: _, value: _ } => rev,
            DisktableEntry::Delete { rev, key: _ } => rev,
        }
    }

    pub fn get_key(&self) -> (r: u64)
        ensures
            r == self.spec_key(),
    {
        match self {
            DisktableEntry::Insert { rev: _, key, value: _ } => *key,
            DisktableEntry::Delete { rev: _, key } => *key,
        }
    }

    pub fn get_rev(&self) -> (r: u64)
        ensures
            r == self.spec_rev(),
    {
        match self {
            DisktableEntry::Insert { rev, key: _, value: _ } => *rev,
            DisktableEntry::Delete { rev, key: _ } => *rev,
        }
    }

    /// Encoded size of one record in bytes.
    pub fn bin_size() -> (r: usize)
        ensures
            r == 28,
    {
        28
    }

    /// Encode this record as exactly 28 bytes.
    pub fn serialize(&self) -> (r: Vec<u8>)
        ensures
            r@ == spec_serialize_disktable_entry(*self),
            r@.len() == 28,
    {
        proof {
            lemma_auto_spec_u32_to_from_le_bytes();
            lemma_auto_spec_u64_to_from_le_bytes();
        }
        match self {
            DisktableEntry::Insert { rev, key, value } => {
                let mut r = u32_to_le_bytes(0u32);
                let mut rb = u64_to_le_bytes(*rev);
                r.append(&mut rb);
                let mut kb = u64_to_le_bytes(*key);
                r.append(&mut kb);
                let mut vb = u64_to_le_bytes(*value);
                r.append(&mut vb);
                assert(r@ =~= spec_serialize_disktable_entry(*self));
                r
            },
            DisktableEntry::Delete { rev, key } => {
                let mut r = u32_to_le_bytes(1u32);
                let mut rb = u64_to_le_bytes(*rev);
                r.append(&mut rb);
                let mut kb = u64_to_le_bytes(*key);
                r.append(&mut kb);
                let ghost prefix = r@;
                let mut i: usize = 0;
                while i < 8
                    invariant
                        i <= 8,
                        r@.len() == 20 + i,
                        prefix.len() == 20,
                        forall|j: int| 0 <= j < 20 ==> r@[j] == prefix[j],
                        forall|j: int| 20 <= j < r@.len() ==> r@[j] == 0u8,
                    decreases 8 - i,
                {
                    r.push(0u8);
                    i = i + 1;
                }
                assert(r@ =~= spec_serialize_disktable_entry(*self));
                r
            },
        }
    }

    /// Decode a record from a buffer; `None` reports corruption.
    pub fn deserialize(bytes: &[u8]) -> (r: Option<DisktableEntry>)
        ensures
            r == spec_deserialize_disktable_entry(bytes@),
    {
        if bytes.len() < 28 {
            return None;
        }
        let tag = u32_from_le_bytes(slice_subrange(bytes, 0, 4));
        let rev = u64_from_le_bytes(slice_subrange(bytes, 4, 12));
        let key = u64_from_le_bytes(slice_subrange(bytes, 12, 20));
        if tag == 0 {
            let value = u64_from_le_bytes(slice_subrange(bytes, 20, 28));
            Some(DisktableEntry::Insert { rev, key, value })
        } else if tag == 1 {
            Some(DisktableEntry::Delete { rev, key })
        } else {
            None
        }
    }
}

/// The 28-byte encoding of a record: a 4-byte little-endian tag (0 = Insert,
/// 1 = Delete) followed by revision, key and value as 8-byte little-endian
/// integers; tombstones pad the value field with zero bytes.
pub open spec fn spec_serialize_disktable_entry(e: DisktableEntry) -> Seq<u8> {
    match e {
        DisktableEntry::Insert { rev, key, value } => spec_u32_to_le_bytes(0u32)
            + spec_u64_to_le_bytes(rev) + spec_u64_to_le_bytes(key) + spec_u64_to_le_bytes(value),
        DisktableEntry::Delete { rev, key } => spec_u32_to_le_bytes(1u32) + spec_u64_to_le_bytes(rev)
            + spec_u64_to_le_bytes(key) + Seq::new(8, |i: int| 0u8),
    }
}

/// Decoding of a record buffer; `None` means the buffer is malformed
/// (too short, or an unknown tag).
pub open spec fn spec_deserialize_disktable_entry(s: Seq<u8>) -> Option<DisktableEntry> {
    if s.len() < 28 {
        None
    } else {
        let tag = spec_u32_from_le_bytes(s.subrange(0, 4));
        let rev = spec_u64_from_le_bytes(s.subrange(4, 12));
        let key = spec_u64_from_le_bytes(s.subrange(12, 20));
        if tag == 0 {
            Some(
                DisktableEntry::Insert {
                    rev,
                    key,
                    value: spec_u64_from_le_bytes(s.subrange(20, 28)),
                },
            )
        } else if tag == 1 {
            Some(DisktableEntry::Delete { rev, key })
        } else {
            None
        }
    }
}

/// Every record round-trips through the 28-byte codec exactly.
pub proof fn lemma_disktable_entry_codec_round_trip(e: DisktableEntry)
    ensures
        spec_serialize_disktable_entry(e).len() == 28,
        spec_deserialize_disktable_entry(spec_serialize_disktable_entry(e)) == Some(e),
{
    lemma_auto_spec_u32_to_from_le_bytes();
    lemma_auto_spec_u64_to_from_le_bytes();
    let s = spec_serialize_disktable_entry(e);
    match e {
        DisktableEntry::Insert { rev, key, value } => {
            assert(s.subrange(0, 4) =~= spec_u32_to_le_bytes(0u32));
            assert(s.subrange(4, 12) =~= spec_u64_to_le_bytes(rev));
            assert(s.subrange(12, 20) =~= spec_u64_to_le_bytes(key));
            assert(s.subrange(20, 28) =~= spec_u64_to_le_bytes(value));
        },
        DisktableEntry::Delete { rev, key } => {
            assert(s.subrange(0, 4) =~= spec_u32_to_le_bytes(1u32));
            assert(s.subrange(4, 12) =~= spec_u64_to_le_bytes(rev));
            assert(s.subrange(12, 20) =~= spec_u64_to_le_bytes(key));
        },
    }
}

} // verus!

verus! {

/// Key-sorted (strictly ascending) sequence of buffered writes.
pub open spec fn sorted_pairs(s: Seq<(u64, Option<u64>)>) -> bool {
    forall|i: int, j: int| 0 <= i < j < s.len() ==> (#[trigger] s[i]).0 < (#[trigger] s[j]).0
}

/// The in-memory write buffer: a key-to-optional-value mapping where `Some`
/// records an insertion and `None` a tombstone; duplicate keys overwrite.
/// Held as a key-sorted vector.
pub struct Memtable {
    items: Vec<(u64, Option<u64>)>,
}

impl Memtable {
    pub closed spec fn wf(self) -> bool {
        sorted_pairs(self.items@)
    }

    pub closed spec fn spec_size(self) -> int {
        self.items@.len() as int
    }

    pub closed spec fn item_at(self, i: int) -> (u64, Option<u64>) {
        self.items@[i]
    }

    pub closed spec fn mt_valid(self, i: int, k: u64) -> bool {
        0 <= i < self.items@.len() && self.items@[i].0 == k
    }

    pub closed spec fn mt_has(self, k: u64) -> bool {
        exists|i: int| self.mt_valid(i, k)
    }

    pub closed spec fn mt_slot(self, k: u64) -> int {
        choose|i: int| self.mt_valid(i, k)
    }
}

impl View for Memtable {
    type V = Map<u64, Option<u64>>;

    closed spec fn view(&self) -> Map<u64, Option<u64>> {
        Map::new(|k: u64| self.mt_has(k), |k: u64| self.items@[self.mt_slot(k)].1)
    }
}

impl Memtable {
    pub fn new() -> (r: Memtable)
        ensures
            r.wf(),
            r@ == Map::<u64, Option<u64>>::empty(),
            r.spec_size() == 0,
    {
        let r = Memtable { items: Vec::new() };
        proof {
            assert forall|k: u64| !r.mt_has(k) by {
                if r.mt_has(k) {
                    let i = choose|i: int| r.mt_valid(i, k);
                    assert(false);
                }
            }
            assert(r@ =~= Map::<u64, Option<u64>>::empty());
        }
        r
    }

    pub fn len(&self) -> (r: usize)
        ensures
            r == self.spec_size(),
    {
        self.items.len()
    }

    pub fn clear(&mut self)
        ensures
            final(self).wf(),
            final(self)@ == Map::<u64, Option<u64>>::empty(),
            final(self).spec_size() == 0,
    {
        self.items.clear();
        proof {
            assert forall|k: u64| !self.mt_has(k) by {
                if self.mt_has(k) {
                    let i = choose|i: int| self.mt_valid(i, k);
                    assert(false);
                }
            }
            assert(self@ =~= Map::<u64, Option<u64>>::empty());
        }
    }

    /// Record a write (an insertion for `Some`, a tombstone for `None`);
    /// the last write for a key wins.
    pub fn insert(&mut self, key: u64, value: Option<u64>)
        requires
            old(self).wf(),
        ensures
            final(self).wf(),
            final(self)@ == old(self)@.insert(key, value),
            final(self).spec_size() == old(self).spec_size() + (if old(self)@.dom().contains(key) {
                0int
            } else {
                1int
            }),
    {
        let ghost pre = *self;
        let mut i: usize = 0;
        while i < self.items.len() && self.items[i].0 < key
            invariant
                *self == pre,
                i <= self.items@.len(),
                forall|j: int| 0 <= j < i ==> (#[trigger] self.items@[j]).0 < key,
            decreases self.items@.len() - i,
        {
            i = i + 1;
        }
        if i < self.items.len() && self.items[i].0 == key {
            self.items.set(i, (key, value));
            proof {
                lemma_mt_write(pre, *self, key, value, i as int, true);
            }
        } else {
            proof {
                assert forall|j: int| i <= j < self.items@.len() implies (#[trigger] self.items@[j]).0
                    > key by {
                    if j > i {
                        assert(self.items@[i as int].0 < self.items@[j].0);
                    }
                }
                if pre.mt_has(key) {
                    let w = choose|w: int| pre.mt_valid(w, key);
                    assert(false);
                }
            }
            self.items.insert(i, (key, value));
            proof {
                lemma_mt_write(pre, *self, key, value, i as int, false);
            }
        }
    }

    /// Look the key up in the buffer; `Some(None)` reports a tombstone.
    pub fn get(&self, key: u64) -> (r: Option<Option<u64>>)
        requires
            self.wf(),
        ensures
            r == (if self@.dom().contains(key) {
                Some(self@[key])
            } else {
                None::<Option<u64>>
            }),
    {
        let mut i: usize = 0;
        while i < self.items.len()
            invariant
                self.wf(),
                i <= self.items@.len(),
                forall|j: int| 0 <= j < i ==> (#[trigger] self.items@[j]).0 != key,
            decreases self.items@.len() - i,
        {
            let (k, v) = self.items[i];
            if k == key {
                proof {
                    assert(self.mt_valid(i as int, key));
                    assert forall|w: int| self.mt_valid(w, key) implies w == i as int by {
                        if w != i as int {
                            lemma_sorted_pairs_distinct(self.items@, w, i as int);
                        }
                    }
                }
                return Some(v);
            }
            i = i + 1;
        }
        proof {
            if self.mt_has(key) {
                let w = choose|w: int| self.mt_valid(w, key);
                assert(false);
            }
        }
        None
    }
}

/// Two different positions of a strictly key-sorted sequence hold different
/// keys.
proof fn lemma_sorted_pairs_distinct(s: Seq<(u64, Option<u64>)>, i: int, j: int)
    requires
        sorted_pairs(s),
        0 <= i < s.len(),
        0 <= j < s.len(),
        i != j,
    ensures
        s[i].0 != s[j].0,
{
    if i < j {
        assert(s[i].0 < s[j].0);
    } else {
        assert(s[j].0 < s[i].0);
    }
}

/// Effect of writing `(key, value)` into a sorted buffer, either replacing
/// the slot that already holds `key` (`existing`) or inserting a fresh slot
/// before the first larger key.
proof fn lemma_mt_write(pre: Memtable, post: Memtable, key: u64, value: Option<u64>, i: int, existing: bool)
    requires
        pre.wf(),
        0 <= i,
        existing ==> i < pre.items@.len() && pre.items@[i].0 == key && post.items@
            == pre.items@.update(i, (key, value)),
        !existing ==> {
            &&& i <= pre.items@.len()
            &&& !pre.mt_has(key)
            &&& post.items@ == pre.items@.insert(i, (key, value))
            &&& forall|j: int| 0 <= j < i ==> (#[trigger] pre.items@[j]).0 < key
            &&& forall|j: int| i <= j < pre.items@.len() ==> (#[trigger] pre.items@[j]).0 > key
        },
        forall|j: int| 0 <= j < i ==> (#[trigger] pre.items@[j]).0 < key,
    ensures
        post.wf(),
        post@ == pre@.insert(key, value),
        post.spec_size() == pre.spec_size() + (if existing {
            0int
        } else {
            1int
        }),
        pre@.dom().contains(key) == existing,
{
    if existing {
        assert forall|a: int, b: int|
            0 <= a < b < post.items@.len() implies (#[trigger] post.items@[a]).0
            < (#[trigger] post.items@[b]).0 by {
            assert(pre.items@[a].0 < pre.items@[b].0);
        }
        assert(pre.mt_valid(i, key));
        assert forall|k: u64| #[trigger] post.mt_has(k) == pre.mt_has(k) by {
            if pre.mt_has(k) {
                let w = choose|w: int| pre.mt_valid(w, k);
                if w == i {
                    assert(post.mt_valid(i, k));
                } else {
                    assert(post.mt_valid(w, k));
                }
            }
            if post.mt_has(k) {
                let w = choose|w: int| post.mt_valid(w, k);
                if w == i {
                    assert(pre.mt_valid(i, k));
                } else {
                    assert(pre.mt_valid(w, k));
                }
            }
        }
        assert forall|k: u64| pre.mt_has(k) && k != key implies post.items@[post.mt_slot(k)].1
            == pre.items@[pre.mt_slot(k)].1 by {
            assert(pre.mt_valid(pre.mt_slot(k), k));
            assert(pre.mt_slot(k) != i);
            assert(post.mt_valid(pre.mt_slot(k), k));
            assert(post.mt_valid(post.mt_slot(k), k));
            if post.mt_slot(k) != pre.mt_slot(k) {
                lemma_sorted_pairs_distinct(post.items@, post.mt_slot(k), pre.mt_slot(k));
                assert(false);
            }
        }
        assert(post.mt_valid(i, key));
        assert forall|w: int| post.mt_valid(w, key) implies w == i by {
            if w != i {
                lemma_sorted_pairs_distinct(post.items@, w, i);
            }
        }
        assert(post.items@[post.mt_slot(key)].1 == value);
        assert(post@ =~= pre@.insert(key, value));
    } else {
        assert forall|a: int, b: int|
            0 <= a < b < post.items@.len() implies (#[trigger] post.items@[a]).0
            < (#[trigger] post.items@[b]).0 by {
            if b < i {
                assert(pre.items@[a].0 < pre.items@[b].0);
            } else if a > i {
                assert(pre.items@[a - 1].0 < pre.items@[b - 1].0);
            } else if a == i {
                assert(post.items@[b] == pre.items@[b - 1]);
            } else if b == i {
                assert(post.items@[a] == pre.items@[a]);
            } else {
                assert(post.items@[a] == pre.items@[a]);
                assert(post.items@[b] == pre.items@[b - 1]);
                assert(pre.items@[a].0 <= pre.items@[b - 1].0) by {
                    if a < b - 1 {
                        assert(pre.items@[a].0 < pre.items@[b - 1].0);
                    }
                }
                assert(pre.items@[a].0 < key || pre.items@[b - 1].0 > key);
            }
        }
        assert(post.mt_valid(i, key));
        assert forall|k: u64| #[trigger] post.mt_has(k) == (pre.mt_has(k) || k == key) by {
            if pre.mt_has(k) {
                let w = choose|w: int| pre.mt_valid(w, k);
                if w < i {
                    assert(post.mt_valid(w, k));
                } else {
                    assert(post.items@[w + 1] == pre.items@[w]);
                    assert(post.mt_valid(w + 1, k));
                }
            }
            if post.mt_has(k) && k != key {
                let w = choose|w: int| post.mt_valid(w, k);
                if w < i {
                    assert(pre.mt_valid(w, k));
                } else {
                    assert(w != i);
                    assert(post.items@[w] == pre.items@[w - 1]);
                    assert(pre.mt_valid(w - 1, k));
                }
            }
        }
        assert forall|k: u64| pre.mt_has(k) implies post.mt_has(k) && post.items@[post.mt_slot(k)].1
            == pre.items@[pre.mt_slot(k)].1 && k != key by {
            assert(pre.mt_valid(pre.mt_slot(k), k));
            let w = pre.mt_slot(k);
            if w < i {
                assert(post.mt_valid(w, k));
            } else {
                assert(post.items@[w + 1] == pre.items@[w]);
                assert(post.mt_valid(w + 1, k));
            }
            assert(post.mt_valid(post.mt_slot(k), k));
            let w2 = post.mt_slot(k);
            assert(w2 != i);
            if w2 < i {
                assert(pre.mt_valid(w2, k));
                if w2 != w {
                    lemma_sorted_pairs_distinct(pre.items@, w2, w);
                }
            } else {
                assert(post.items@[w2] == pre.items@[w2 - 1]);
                assert(pre.mt_valid(w2 - 1, k));
                if w2 - 1 != w {
                    lemma_sorted_pairs_distinct(pre.items@, w2 - 1, w);
                }
            }
        }
        assert forall|w: int| post.mt_valid(w, key) implies w == i by {
            if w != i {
                lemma_sorted_pairs_distinct(post.items@, w, i);
            }
        }
        assert(post.items@[post.mt_slot(key)].1 == value);
        if pre@.dom().contains(key) {
            assert(pre.mt_has(key));
            assert(false);
        }
        assert(post@ =~= pre@.insert(key, value));
    }
}

} // verus!

verus! {

/// Strictly ascending by key: each key appears in at most one record.
pub open spec fn sorted_strict(es: Seq<DisktableEntry>) -> bool {
    forall|i: int, j: int|
        0 <= i < j < es.len() ==> (#[trigger] es[i]).spec_key() < (#[trigger] es[j]).spec_key()
}

/// The byte image of a segment file: the concatenation of the 28-byte
/// encodings of its records.
pub closed spec fn spec_disktable_image(es: Seq<DisktableEntry>) -> Seq<u8>
    decreases es.len(),
{
    if es.len() == 0 {
        Seq::empty()
    } else {
        spec_disktable_image(es.drop_last()) + spec_serialize_disktable_entry(es.last())
    }
}

pub proof fn lemma_disktable_image_len(es: Seq<DisktableEntry>)
    ensures
        spec_disktable_image(es).len() == 28 * es.len(),
    decreases es.len(),
{
    if es.len() > 0 {
        lemma_disktable_image_len(es.drop_last());
        lemma_disktable_entry_codec_round_trip(es.last());
    }
}

pub proof fn lemma_sorted_strict_distinct(es: Seq<DisktableEntry>, i: int, j: int)
    requires
        sorted_strict(es),
        0 <= i < es.len(),
        0 <= j < es.len(),
        i != j,
    ensures
        es[i].spec_key() != es[j].spec_key(),
{
    if i < j {
        assert(es[i].spec_key() < es[j].spec_key());
    } else {
        assert(es[j].spec_key() < es[i].spec_key());
    }
}

/// An immutable key-sorted segment, modelled on its file: `bytes` is the
/// file's content, `name` its 12-character filename, `id` the stable
/// identity the repository tracks it under (the stand-in for an inode).
pub struct Disktable {
    entries: Vec<DisktableEntry>,
    bytes: Vec<u8>,
    name: Vec<u8>,
    id: u64,
}

impl Disktable {
    pub closed spec fn spec_entries(self) -> Seq<DisktableEntry> {
        self.entries@
    }

    pub closed spec fn spec_id(self) -> u64 {
        self.id
    }

    pub closed spec fn spec_name(self) -> Seq<u8> {
        self.name@
    }

    pub closed spec fn file_image(self) -> Seq<u8> {
        self.bytes@
    }

    pub closed spec fn wf(self) -> bool {
        &&& sorted_strict(self.entries@)
        &&& self.bytes@ == spec_disktable_image(self.entries@)
        &&& self.name@.len() == 12
    }

    pub closed spec fn seg_valid(self, i: int, key: u64) -> bool {
        0 <= i < self.entries@.len() && self.entries@[i].spec_key() == key
    }

    pub closed spec fn seg_has(self, key: u64) -> bool {
        exists|i: int| self.seg_valid(i, key)
    }

    pub closed spec fn seg_at(self, key: u64) -> int {
        choose|i: int| self.seg_valid(i, key)
    }

    /// The (unique) record for `key`, if the segment holds one.
    pub closed spec fn seg_find(self, key: u64) -> Option<DisktableEntry> {
        if self.seg_has(key) {
            Some(self.entries@[self.seg_at(key)])
        } else {
            None
        }
    }

    /// Number of records.
    pub fn len(&self) -> (r: usize)
        ensures
            r == self.spec_entries().len(),
    {
        self.entries.len()
    }

    /// Byte length of the segment file: 28 bytes per record.
    pub fn on_disk_size(&self) -> (r: usize)
        requires
            self.wf(),
        ensures
            r == self.file_image().len(),
            r == 28 * self.spec_entries().len(),
    {
        proof {
            lemma_disktable_image_len(self.entries@);
        }
        self.bytes.len()
    }

    /// Decode the record at index `pos`.
    pub fn read_pos(&self, pos: usize) -> (r: DisktableEntry)
        requires
            pos < self.spec_entries().len(),
        ensures
            r == self.spec_entries()[pos as int],
    {
        self.entries[pos]
    }

    /// The record for `key`, whatever its kind, or `None` when the segment
    /// has none.
    pub fn find_entry(&self, key: u64) -> (r: Option<DisktableEntry>)
        requires
            self.wf(),
        ensures
            r == self.seg_find(key),
    {
        let mut i: usize = 0;
        while i < self.entries.len()
            invariant
                self.wf(),
                i <= self.entries@.len(),
                forall|j: int| 0 <= j < i ==> (#[trigger] self.entries@[j]).spec_key() != key,
            decreases self.entries@.len() - i,
        {
            let e = self.entries[i];
            if e.get_key() == key {
                proof {
                    assert(self.seg_valid(i as int, key));
                    assert forall|w: int| self.seg_valid(w, key) implies w == i as int by {
                        if w != i as int {
                            lemma_sorted_strict_distinct(self.entries@, w, i as int);
                        }
                    }
                }
                return Some(e);
            }
            i = i + 1;
        }
        proof {
            if self.seg_has(key) {
                let w = choose|w: int| self.seg_valid(w, key);
                assert(false);
            }
        }
        None
    }

    /// Linear-scan point lookup: `(value, rev)` for an insertion, empty for
    /// a tombstone or a miss.
    pub fn get(&self, key: u64) -> (r: Option<(u64, u64)>)
        requires
            self.wf(),
        ensures
            r == (match self.seg_find(key) {
                Some(DisktableEntry::Insert { rev, key: _, value }) => Some((value, rev)),
                _ => None::<(u64, u64)>,
            }),
    {
        let found = self.find_entry(key);
        match found {
            Some(DisktableEntry::Insert { rev, key: _, value }) => Some((value, rev)),
            _ => None,
        }
    }

    /// The segment's filename, for the program that mirrors segments to disk.
    pub fn name(&self) -> (r: &Vec<u8>)
        ensures
            r@ == self.spec_name(),
    {
        &self.name
    }

    /// The segment file's bytes, for the program that mirrors segments to
    /// disk.
    pub fn content(&self) -> (r: &Vec<u8>)
        ensures
            r@ == self.file_image(),
    {
        &self.bytes
    }

    /// The identity the repository tracks this segment under.
    pub fn id(&self) -> (r: u64)
        ensures
            r == self.spec_id(),
    {
        self.id
    }
}

} // verus!

verus! {

/// ASCII letter or digit.
pub open spec fn alnum_byte(b: u8) -> bool {
    (48 <= b && b <= 57) || (65 <= b && b <= 90) || (97 <= b && b <= 122)
}

pub closed spec fn pow62(n: nat) -> int
    decreases n,
{
    if n == 0 {
        1
    } else {
        62 * pow62((n - 1) as nat)
    }
}

/// The alphanumeric byte standing for one base-62 digit.
pub closed spec fn digit62(d: int) -> u8 {
    if d < 10 {
        (48 + d) as u8
    } else if d < 36 {
        (55 + d) as u8
    } else {
        (61 + d) as u8
    }
}

/// `n` base-62 digits of `c`, least significant first.
pub closed spec fn enc62(c: int, n: nat) -> Seq<u8>
    decreases n,
{
    if n == 0 {
        Seq::empty()
    } else {
        seq![digit62(c % 62)] + enc62(c / 62, (n - 1) as nat)
    }
}

proof fn lemma_enc62_len(c: int, n: nat)
    ensures
        enc62(c, n).len() == n,
        forall|i: int| 0 <= i < n ==> alnum_byte(#[trigger] enc62(c, n)[i]),
    decreases n,
{
    if n > 0 {
        lemma_enc62_len(c / 62, (n - 1) as nat);
        assert forall|i: int| 0 <= i < n implies alnum_byte(#[trigger] enc62(c, n)[i]) by {
            if i == 0 {
                assert(0 <= c % 62 < 62);
            } else {
                assert(enc62(c, n)[i] == enc62(c / 62, (n - 1) as nat)[i - 1]);
            }
        }
    }
}

/// Distinct counters below `62^n` have distinct digit strings.
proof fn lemma_enc62_injective(c1: int, c2: int, n: nat)
    requires
        0 <= c1 < pow62(n),
        0 <= c2 < pow62(n),
        enc62(c1, n) == enc62(c2, n),
    ensures
        c1 == c2,
    decreases n,
{
    if n == 0 {
        assert(pow62(0) == 1);
    } else {
        let m = (n - 1) as nat;
        assert(enc62(c1, n)[0] == digit62(c1 % 62));
        assert(enc62(c2, n)[0] == digit62(c2 % 62));
        assert(0 <= c1 % 62 < 62 && 0 <= c2 % 62 < 62);
        assert(c1 % 62 == c2 % 62);
        lemma_enc62_len(c1 / 62, m);
        lemma_enc62_len(c2 / 62, m);
        assert(enc62(c1 / 62, m) =~= enc62(c2 / 62, m)) by {
            assert forall|i: int| 0 <= i < m implies #[trigger] enc62(c1 / 62, m)[i] == enc62(
                c2 / 62,
                m,
            )[i] by {
                assert(enc62(c1, n)[i + 1] == enc62(c1 / 62, m)[i]);
                assert(enc62(c2, n)[i + 1] == enc62(c2 / 62, m)[i]);
            }
        }
        assert(c1 / 62 < pow62(m)) by (nonlinear_arith)
            requires
                0 <= c1 < 62 * pow62(m),
        ;
        assert(c2 / 62 < pow62(m)) by (nonlinear_arith)
            requires
                0 <= c2 < 62 * pow62(m),
        ;
        assert(0 <= c1 / 62 && 0 <= c2 / 62) by (nonlinear_arith)
            requires
                0 <= c1 && 0 <= c2,
        ;
        lemma_enc62_injective(c1 / 62, c2 / 62, m);
        vstd::arithmetic::div_mod::lemma_fundamental_div_mod(c1, 62);
        vstd::arithmetic::div_mod::lemma_fundamental_div_mod(c2, 62);
    }
}

/// Eleven base-62 digits cover every 64-bit counter.
proof fn lemma_u64_below_pow62_11(c: u64)
    ensures
        (c as int) < pow62(11),
{
    reveal_with_fuel(pow62, 12);
    assert(pow62(11) == 52036560683837093888int);
}

/// Relies on rand's `Alphanumeric` distribution: every sampled byte is an
/// ASCII letter or digit.
#[verifier::external_body]
fn random_alnum_byte() -> (r: u8)
    ensures
        alnum_byte(r),
{
    rand::Rng::sample(&mut rand::thread_rng(), rand::distributions::Alphanumeric)
}

/// A 12-character alphanumeric filename: one random byte followed by the
/// eleven base-62 digits of the repository's file counter, so no two live
/// names can collide.
fn make_filename(counter: u64) -> (r: Vec<u8>)
    ensures
        r@.len() == 12,
        forall|i: int| 0 <= i < 12 ==> alnum_byte(#[trigger] r@[i]),
        r@.subrange(1, 12) == enc62(counter as int, 11),
{
    let mut r: Vec<u8> = Vec::new();
    r.push(random_alnum_byte());
    let ghost head = r@;
    let mut c: u64 = counter;
    let mut i: usize = 0;
    while i < 11
        invariant
            i <= 11,
            head.len() == 1,
            alnum_byte(head[0]),
            r@.len() == 1 + i,
            r@.subrange(0, 1) == head,
            r@.subrange(1, r@.len() as int) + enc62(c as int, (11 - i) as nat) == enc62(
                counter as int,
                11,
            ),
            forall|j: int| 0 <= j < r@.len() ==> alnum_byte(#[trigger] r@[j]),
        decreases 11 - i,
    {
        let ghost prev = r@;
        let d = (c % 62) as u8;
        let b: u8 = if d < 10 {
            48 + d
        } else if d < 36 {
            55 + d
        } else {
            61 + d
        };
        proof {
            assert(b == digit62(c as int % 62));
        }
        r.push(b);
        c = c / 62;
        proof {
            assert(r@.subrange(0, 1) =~= head);
            assert(r@.subrange(1, r@.len() as int) =~= prev.subrange(1, prev.len() as int).push(
                b,
            ));
        }
        i = i + 1;
        proof {
            assert(r@.subrange(1, r@.len() as int) + enc62(c as int, (11 - i) as nat) =~= enc62(
                counter as int,
                11,
            ));
        }
    }
    proof {
        lemma_enc62_len(counter as int, 11);
        assert(r@.subrange(1, 12) + enc62(c as int, 0) =~= r@.subrange(1, 12));
        assert(r@.subrange(1, 12) =~= enc62(counter as int, 11));
    }
    r
}

} // verus!

verus! {

/// The disktable factory: tracks the live segment filenames and their
/// identities, and owns the monotonically increasing revision counter that
/// is stamped onto every flush.
pub struct DisktableRepository {
    used_filenames: Vec<Vec<u8>>,
    inodes: Vec<u64>,
    last_rev: u64,
    file_counter: u64,
}

impl DisktableRepository {
    pub closed spec fn spec_last_rev(self) -> u64 {
        self.last_rev
    }

    pub closed spec fn spec_file_counter(self) -> u64 {
        self.file_counter
    }

    /// A live file is tracked under this identity.
    pub closed spec fn has_inode(self, id: u64) -> bool {
        exists|i: int| 0 <= i < self.inodes@.len() && self.inodes@[i] == id
    }

    /// A live file bears this name.
    pub closed spec fn name_used(self, n: Seq<u8>) -> bool {
        exists|i: int| 0 <= i < self.used_filenames@.len() && self.used_filenames@[i]@ == n
    }

    pub closed spec fn wf(self) -> bool {
        &&& self.used_filenames@.len() == self.inodes@.len()
        &&& forall|i: int|
            0 <= i < self.inodes@.len() ==> #[trigger] self.inodes@[i] < self.file_counter
        &&& forall|i: int, j: int|
            0 <= i < j < self.inodes@.len() ==> self.inodes@[i] != self.inodes@[j]
        &&& forall|i: int|
            0 <= i < self.used_filenames@.len() ==> (#[trigger] self.used_filenames@[i])@.len()
                == 12
        &&& forall|i: int|
            0 <= i < self.used_filenames@.len() ==> (#[trigger] self.used_filenames@[i])@.subrange(
                1,
                12,
            ) == enc62(self.inodes@[i] as int, 11)
    }

    /// A fresh, empty repository: no files, revision counter at zero.
    pub fn new() -> (r: DisktableRepository)
        ensures
            r.wf(),
            r.spec_last_rev() == 0,
            r.spec_file_counter() == 0,
            forall|id: u64| !r.has_inode(id),
            forall|n: Seq<u8>| !r.name_used(n),
    {
        let r = DisktableRepository {
            used_filenames: Vec::new(),
            inodes: Vec::new(),
            last_rev: 0,
            file_counter: 0,
        };
        proof {
            assert forall|id: u64| !r.has_inode(id) by {
                if r.has_inode(id) {
                    let i = choose|i: int| 0 <= i < r.inodes@.len() && r.inodes@[i] == id;
                    assert(false);
                }
            }
            assert forall|n: Seq<u8>| !r.name_used(n) by {
                if r.name_used(n) {
                    let i = choose|i: int|
                        0 <= i < r.used_filenames@.len() && r.used_filenames@[i]@ == n;
                    assert(false);
                }
            }
        }
        r
    }

    /// Allocate a fresh 12-character alphanumeric filename, unique among the
    /// live files, and register it together with a fresh identity.
    fn create_file(&mut self) -> (r: (Vec<u8>, u64))
        requires
            old(self).wf(),
            old(self).spec_file_counter() < u64::MAX,
        ensures
            final(self).wf(),
            final(self).spec_last_rev() == old(self).spec_last_rev(),
            final(self).spec_file_counter() == old(self).spec_file_counter() + 1,
            r.1 == old(self).spec_file_counter(),
            r.0@.len() == 12,
            forall|i: int| 0 <= i < 12 ==> alnum_byte(#[trigger] r.0@[i]),
            !old(self).has_inode(r.1),
            !old(self).name_used(r.0@),
            final(self).has_inode(r.1),
            final(self).name_used(r.0@),
            forall|id: u64| id != r.1 ==> final(self).has_inode(id) == old(self).has_inode(id),
    {
        let ghost pre = *self;
        let name = make_filename(self.file_counter);
        let id = self.file_counter;
        self.file_counter = self.file_counter + 1;
        proof {
            if pre.has_inode(id) {
                let i = choose|i: int| 0 <= i < pre.inodes@.len() && pre.inodes@[i] == id;
                assert(false);
            }
            if pre.name_used(name@) {
                let i = choose|i: int|
                    0 <= i < pre.used_filenames@.len() && pre.used_filenames@[i]@ == name@;
                assert(pre.used_filenames@[i]@.subrange(1, 12) == enc62(pre.inodes@[i] as int, 11));
                lemma_u64_below_pow62_11(pre.inodes@[i]);
                lemma_u64_below_pow62_11(id);
                lemma_enc62_injective(pre.inodes@[i] as int, id as int, 11);
                assert(false);
            }
        }
        let ghost mid = *self;
        self.used_filenames.push(copy_bytes(&name));
        self.inodes.push(id);
        proof {
            assert forall|i: int|
                0 <= i < self.used_filenames@.len() implies (
            #[trigger] self.used_filenames@[i])@.subrange(1, 12) == enc62(
                self.inodes@[i] as int,
                11,
            ) by {
                if i < pre.used_filenames@.len() {
                    assert(self.used_filenames@[i] == pre.used_filenames@[i]);
                    assert(self.inodes@[i] == pre.inodes@[i]);
                }
            }
            let w = pre.inodes@.len() as int;
            assert(self.inodes@[w] == id);
            assert(self.used_filenames@[w]@ == name@);
            assert(self.has_inode(id));
            assert(self.name_used(name@));
            assert forall|id2: u64| id2 != id implies final(self).has_inode(id2) == pre.has_inode(
                id2,
            ) by {
                if pre.has_inode(id2) {
                    let i = choose|i: int| 0 <= i < pre.inodes@.len() && pre.inodes@[i] == id2;
                    assert(self.inodes@[i] == id2);
                }
                if self.has_inode(id2) {
                    let i = choose|i: int| 0 <= i < self.inodes@.len() && self.inodes@[i] == id2;
                    assert(i < pre.inodes@.len());
                    assert(pre.inodes@[i] == id2);
                }
            }
        }
        (name, id)
    }

    /// Drop the bookkeeping for the live file with this identity and hand
    /// back its filename (so the embedding program can unlink the file).
    pub fn delete_file(&mut self, inode: u64) -> (r: Vec<u8>)
        requires
            old(self).wf(),
            old(self).has_inode(inode),
        ensures
            final(self).wf(),
            final(self).spec_last_rev() == old(self).spec_last_rev(),
            final(self).spec_file_counter() == old(self).spec_file_counter(),
            !final(self).has_inode(inode),
            forall|id: u64| id != inode ==> final(self).has_inode(id) == old(self).has_inode(id),
            r@.len() == 12,
    {
        let ghost pre = *self;
        let mut index: usize = 0;
        let mut found = false;
        let mut i: usize = 0;
        while i < self.inodes.len()
            invariant
                *self == pre,
                i <= self.inodes@.len(),
                !found ==> forall|j: int| 0 <= j < i ==> self.inodes@[j] != inode,
                found ==> index < i && i <= self.inodes@.len() && self.inodes@[index as int]
                    == inode,
            decreases self.inodes@.len() - i,
        {
            if !found && self.inodes[i] == inode {
                index = i;
                found = true;
            }
            i = i + 1;
        }
        proof {
            if !found {
                let w = choose|w: int| 0 <= w < pre.inodes@.len() && pre.inodes@[w] == inode;
                assert(false);
            }
        }
        let filename = self.used_filenames.remove(index);
        self.inodes.remove(index);
        proof {
            let n = pre.inodes@.len();
            let ix = index as int;
            assert(self.inodes@ =~= pre.inodes@.remove(ix));
            assert forall|j: int| 0 <= j < self.inodes@.len() implies #[trigger] self.inodes@[j]
                < self.file_counter by {
                if j < ix {
                    assert(self.inodes@[j] == pre.inodes@[j]);
                } else {
                    assert(self.inodes@[j] == pre.inodes@[j + 1]);
                }
            }
            assert forall|a: int, b: int|
                0 <= a < b < self.inodes@.len() implies self.inodes@[a] != self.inodes@[b] by {
                let a0 = if a < ix {
                    a
                } else {
                    a + 1
                };
                let b0 = if b < ix {
                    b
                } else {
                    b + 1
                };
                assert(self.inodes@[a] == pre.inodes@[a0]);
                assert(self.inodes@[b] == pre.inodes@[b0]);
            }
            assert forall|j: int|
                0 <= j < self.used_filenames@.len() implies (
            #[trigger] self.used_filenames@[j])@.len() == 12 && self.used_filenames@[j]@.subrange(
                1,
                12,
            ) == enc62(self.inodes@[j] as int, 11) by {
                if j < ix {
                    assert(self.used_filenames@[j] == pre.used_filenames@[j]);
                    assert(self.inodes@[j] == pre.inodes@[j]);
                } else {
                    assert(self.used_filenames@[j] == pre.used_filenames@[j + 1]);
                    assert(self.inodes@[j] == pre.inodes@[j + 1]);
                }
            }
            if self.has_inode(inode) {
                let w = choose|w: int| 0 <= w < self.inodes@.len() && self.inodes@[w] == inode;
                let w0 = if w < ix {
                    w
                } else {
                    w + 1
                };
                assert(pre.inodes@[w0] == inode);
                assert(pre.inodes@[ix] == inode);
                if w0 < ix {
                    assert(pre.inodes@[w0] != pre.inodes@[ix]);
                } else {
                    assert(pre.inodes@[ix] != pre.inodes@[w0]);
                }
                assert(false);
            }
            assert forall|id: u64| id != inode implies final(self).has_inode(id) == pre.has_inode(
                id,
            ) by {
                if pre.has_inode(id) {
                    let w = choose|w: int| 0 <= w < pre.inodes@.len() && pre.inodes@[w] == id;
                    assert(w != ix);
                    if w < ix {
                        assert(self.inodes@[w] == id);
                    } else {
                        assert(self.inodes@[w - 1] == pre.inodes@[w]);
                    }
                }
                if self.has_inode(id) {
                    let w = choose|w: int| 0 <= w < self.inodes@.len() && self.inodes@[w] == id;
                    let w0 = if w < ix {
                        w
                    } else {
                        w + 1
                    };
                    assert(pre.inodes@[w0] == id);
                }
            }
        }
        filename
    }
}

/// Byte-for-byte copy of a buffer.
pub(crate) fn copy_bytes(v: &Vec<u8>) -> (r: Vec<u8>)
    ensures
        r@ == v@,
{
    let mut r: Vec<u8> = Vec::new();
    let mut i: usize = 0;
    while i < v.len()
        invariant
            i <= v@.len(),
            r@ == v@.subrange(0, i as int),
        decreases v@.len() - i,
    {
        r.push(v[i]);
        proof {
            assert(v@.subrange(0, i + 1) =~= v@.subrange(0, i as int).push(v@[i as int]));
        }
        i = i + 1;
    }
    proof {
        assert(v@.subrange(0, v@.len() as int) =~= v@);
    }
    r
}

} // verus!

verus! {

/// The record a buffered write becomes when flushed at revision `rev`.
pub open spec fn stamp(p: (u64, Option<u64>), rev: u64) -> DisktableEntry {
    match p.1 {
        Some(v) => DisktableEntry::Insert { rev, key: p.0, value: v },
        None => DisktableEntry::Delete { rev, key: p.0 },
    }
}

impl DisktableRepository {
    /// Write the supplied records, which the caller has sorted strictly
    /// ascending by key, as a new segment file.
    pub fn from_iter(&mut self, entries: Vec<DisktableEntry>) -> (d: Disktable)
        requires
            old(self).wf(),
            sorted_strict(entries@),
            old(self).spec_file_counter() < u64::MAX,
        ensures
            final(self).wf(),
            final(self).spec_last_rev() == old(self).spec_last_rev(),
            final(self).spec_file_counter() == old(self).spec_file_counter() + 1,
            d.wf(),
            d.spec_entries() == entries@,
            d.spec_id() == old(self).spec_file_counter(),
            !old(self).has_inode(d.spec_id()),
            final(self).has_inode(d.spec_id()),
            forall|id: u64|
                id != d.spec_id() ==> final(self).has_inode(id) == old(self).has_inode(id),
    {
        let (name, id) = self.create_file();
        let mut bytes: Vec<u8> = Vec::new();
        let mut i: usize = 0;
        while i < entries.len()
            invariant
                i <= entries@.len(),
                bytes@ == spec_disktable_image(entries@.subrange(0, i as int)),
            decreases entries@.len() - i,
        {
            let mut piece = entries[i].serialize();
            bytes.append(&mut piece);
            proof {
                assert(entries@.subrange(0, i + 1).drop_last() =~= entries@.subrange(0, i as int));
                assert(entries@.subrange(0, i + 1).last() == entries@[i as int]);
            }
            i = i + 1;
        }
        proof {
            assert(entries@.subrange(0, entries@.len() as int) =~= entries@);
        }
        Disktable { entries, bytes, name, id }
    }

    /// Flush a memtable: take the next revision, stamp every buffered write
    /// with it, and write the records (already key-sorted) as a new segment.
    pub fn from_memtable(&mut self, memtable: &Memtable) -> (d: Disktable)
        requires
            old(self).wf(),
            memtable.wf(),
            old(self).spec_last_rev() < u64::MAX,
            old(self).spec_file_counter() < u64::MAX,
        ensures
            final(self).wf(),
            final(self).spec_last_rev() == old(self).spec_last_rev() + 1,
            final(self).spec_file_counter() == old(self).spec_file_counter() + 1,
            d.wf(),
            d.spec_id() == old(self).spec_file_counter(),
            !old(self).has_inode(d.spec_id()),
            final(self).has_inode(d.spec_id()),
            forall|id: u64|
                id != d.spec_id() ==> final(self).has_inode(id) == old(self).has_inode(id),
            d.spec_entries().len() == memtable.spec_size(),
            forall|i: int|
                0 <= i < d.spec_entries().len() ==> #[trigger] d.spec_entries()[i] == stamp(
                    memtable.item_at(i),
                    (old(self).spec_last_rev() + 1) as u64,
                ),
    {
        self.last_rev = self.last_rev + 1;
        proof {
            assert forall|id: u64| self.has_inode(id) == old(self).has_inode(id) by {
                assert(self.inodes@ == old(self).inodes@);
            }
        }
        let rev = self.last_rev;
        let mut entries: Vec<DisktableEntry> = Vec::new();
        let mut i: usize = 0;
        while i < memtable.items.len()
            invariant
                memtable.wf(),
                i <= memtable.items@.len(),
                entries@.len() == i,
                forall|j: int|
                    0 <= j < i ==> #[trigger] entries@[j] == stamp(memtable.items@[j], rev),
            decreases memtable.items@.len() - i,
        {
            let (k, v) = memtable.items[i];
            match v {
                Some(value) => entries.push(DisktableEntry::Insert { rev, key: k, value }),
                None => entries.push(DisktableEntry::Delete { rev, key: k }),
            }
            i = i + 1;
        }
        proof {
            assert forall|a: int, b: int|
                0 <= a < b < entries@.len() implies (#[trigger] entries@[a]).spec_key() < (
            #[trigger] entries@[b]).spec_key() by {
                assert(memtable.items@[a].0 < memtable.items@[b].0);
            }
        }
        self.from_iter(entries)
    }
}

} // verus!

verus! {

/// Record `i` of input segment `t`.
pub open spec fn ent(ds: Seq<Disktable>, t: int, i: int) -> DisktableEntry {
    ds[t].spec_entries()[i]
}

pub open spec fn len_of(ds: Seq<Disktable>, t: int) -> int {
    ds[t].spec_entries().len() as int
}

/// Segment `t` still has unconsumed records under the frontier `ps`.
pub open spec fn live(ds: Seq<Disktable>, ps: Seq<usize>, t: int) -> bool {
    (ps[t] as int) < len_of(ds, t)
}

/// The key at segment `t`'s frontier.
pub open spec fn headkey(ds: Seq<Disktable>, ps: Seq<usize>, t: int) -> u64 {
    ent(ds, t, ps[t] as int).spec_key()
}

/// Some input segment holds a record for `k`.
pub open spec fn any_has(ds: Seq<Disktable>, k: u64) -> bool {
    exists|t: int, i: int| 0 <= t < ds.len() && 0 <= i < len_of(ds, t) && #[trigger] ent(
        ds,
        t,
        i,
    ).spec_key() == k
}

/// `e` is a record of one of the input segments.
pub open spec fn entry_in(ds: Seq<Disktable>, e: DisktableEntry) -> bool {
    exists|t: int, i: int| 0 <= t < ds.len() && 0 <= i < len_of(ds, t) && #[trigger] ent(ds, t, i)
        == e
}

/// `e` is an input record whose revision is at least that of every input
/// record with the same key: the entry a merge must keep for that key.
pub open spec fn wins(ds: Seq<Disktable>, e: DisktableEntry) -> bool {
    &&& entry_in(ds, e)
    &&& forall|t: int, i: int|
        0 <= t < ds.len() && 0 <= i < len_of(ds, t) && (#[trigger] ent(ds, t, i)).spec_key()
            == e.spec_key() ==> ent(ds, t, i).spec_rev() <= e.spec_rev()
}

/// Across two different input segments, records for one key never share a
/// revision (each flush consumes a fresh revision).
pub open spec fn cross_rev_distinct(ds: Seq<Disktable>) -> bool {
    forall|t1: int, i1: int, t2: int, i2: int|
        0 <= t1 < ds.len() && 0 <= i1 < len_of(ds, t1) && 0 <= t2 < ds.len() && 0 <= i2 < len_of(
            ds,
            t2,
        ) && t1 != t2 && (#[trigger] ent(ds, t1, i1)).spec_key() == (#[trigger] ent(
            ds,
            t2,
            i2,
        )).spec_key() ==> ent(ds, t1, i1).spec_rev() != ent(ds, t2, i2).spec_rev()
}

/// When no two inputs share a (key, revision) pair, the winner for a key is
/// unique: merging keeps exactly one well-defined record per key.
pub proof fn lemma_winner_unique(ds: Seq<Disktable>, e1: DisktableEntry, e2: DisktableEntry)
    requires
        forall|t: int| 0 <= t < ds.len() ==> (#[trigger] ds[t]).wf(),
        cross_rev_distinct(ds),
        wins(ds, e1),
        wins(ds, e2),
        e1.spec_key() == e2.spec_key(),
    ensures
        e1 == e2,
{
    let (t1, i1) = choose|t: int, i: int|
        0 <= t < ds.len() && 0 <= i < len_of(ds, t) && #[trigger] ent(ds, t, i) == e1;
    let (t2, i2) = choose|t: int, i: int|
        0 <= t < ds.len() && 0 <= i < len_of(ds, t) && #[trigger] ent(ds, t, i) == e2;
    assert(ent(ds, t1, i1).spec_rev() <= e2.spec_rev());
    assert(ent(ds, t2, i2).spec_rev() <= e1.spec_rev());
    if t1 != t2 {
        assert(false);
    } else {
        if i1 != i2 {
            lemma_sorted_strict_distinct(ds[t1].spec_entries(), i1, i2);
            assert(false);
        }
    }
}

/// Total number of records not yet consumed under the frontier `ps`.
pub closed spec fn rem_sum(ds: Seq<Disktable>, ps: Seq<usize>) -> int
    decreases ds.len(),
{
    if ds.len() == 0 {
        0
    } else {
        rem_sum(ds.drop_last(), ps.drop_last()) + (len_of(ds, ds.len() - 1) - ps[ds.len() - 1])
    }
}

proof fn lemma_rem_sum_nonneg(ds: Seq<Disktable>, ps: Seq<usize>)
    requires
        ps.len() == ds.len(),
        forall|t: int| 0 <= t < ds.len() ==> (#[trigger] ps[t]) as int <= len_of(ds, t),
    ensures
        rem_sum(ds, ps) >= 0,
    decreases ds.len(),
{
    if ds.len() > 0 {
        lemma_rem_sum_nonneg(ds.drop_last(), ps.drop_last());
    }
}

proof fn lemma_rem_sum_decreases(ds: Seq<Disktable>, ps1: Seq<usize>, ps2: Seq<usize>, w: int)
    requires
        ps1.len() == ds.len(),
        ps2.len() == ds.len(),
        forall|t: int| 0 <= t < ds.len() ==> (#[trigger] ps1[t]) <= ps2[t],
        forall|t: int| 0 <= t < ds.len() ==> (#[trigger] ps2[t]) as int <= len_of(ds, t),
        0 <= w < ds.len(),
        ps1[w] < ps2[w],
    ensures
        rem_sum(ds, ps2) < rem_sum(ds, ps1),
    decreases ds.len(),
{
    let n = ds.len() as int;
    if w == n - 1 {
        lemma_rem_sum_mono(ds.drop_last(), ps1.drop_last(), ps2.drop_last());
    } else {
        lemma_rem_sum_decreases(ds.drop_last(), ps1.drop_last(), ps2.drop_last(), w);
    }
}

proof fn lemma_rem_sum_mono(ds: Seq<Disktable>, ps1: Seq<usize>, ps2: Seq<usize>)
    requires
        ps1.len() == ds.len(),
        ps2.len() == ds.len(),
        forall|t: int| 0 <= t < ds.len() ==> (#[trigger] ps1[t]) <= ps2[t],
    ensures
        rem_sum(ds, ps2) <= rem_sum(ds, ps1),
    decreases ds.len(),
{
    if ds.len() > 0 {
        lemma_rem_sum_mono(ds.drop_last(), ps1.drop_last(), ps2.drop_last());
    }
}

} // verus!

verus! {

/// Every consumed record's key is at most `k`.
pub open spec fn processed_below(ds: Seq<Disktable>, ps: Seq<usize>, k: u64) -> bool {
    forall|t: int, j: int|
        0 <= t < ds.len() && 0 <= j < ps[t] ==> (#[trigger] ent(ds, t, j)).spec_key() <= k
}

/// Every unconsumed record's key is above `k`.
pub open spec fn frontier_above(ds: Seq<Disktable>, ps: Seq<usize>, k: u64) -> bool {
    forall|t: int, j: int|
        0 <= t < ds.len() && ps[t] <= j < len_of(ds, t) ==> (#[trigger] ent(ds, t, j)).spec_key()
            > k
}

/// Every consumed record's key already appears in the output.
pub open spec fn covered(ds: Seq<Disktable>, ps: Seq<usize>, out: Seq<DisktableEntry>) -> bool {
    forall|t: int, j: int|
        0 <= t < ds.len() && 0 <= j < ps[t] ==> exists|m: int|
            0 <= m < out.len() && (#[trigger] out[m]).spec_key() == (#[trigger] ent(
                ds,
                t,
                j,
            )).spec_key()
}

/// What the best-candidate scan of the inner merge loop knows after looking
/// at the first `t` segments: `best` is a frontier record for `mink` with
/// the greatest revision among those seen.
pub open spec fn best_inv(
    ds: Seq<Disktable>,
    ps: Seq<usize>,
    t: int,
    mink: u64,
    best: Option<DisktableEntry>,
) -> bool {
    match best {
        None => forall|u: int|
            0 <= u < t ==> !(#[trigger] live(ds, ps, u) && headkey(ds, ps, u) == mink),
        Some(b) => {
            &&& b.spec_key() == mink
            &&& exists|u: int|
                0 <= u < t && #[trigger] live(ds, ps, u) && ent(ds, u, ps[u] as int) == b
            &&& forall|u: int|
                0 <= u < t && #[trigger] live(ds, ps, u) && headkey(ds, ps, u) == mink ==> ent(
                    ds,
                    u,
                    ps[u] as int,
                ).spec_rev() <= b.spec_rev()
        },
    }
}

impl DisktableRepository {
    /// K-way merge of live segments into one new segment: each key of any
    /// input appears exactly once in the output, carried by the input record
    /// with the greatest revision; the inputs' files are deleted.
    #[verifier::rlimit(80)]
    pub fn merge(&mut self, disktables: Vec<Disktable>) -> (d: Disktable)
        requires
            old(self).wf(),
            old(self).spec_file_counter() < u64::MAX,
            forall|t: int| 0 <= t < disktables@.len() ==> (#[trigger] disktables@[t]).wf(),
            forall|t: int|
                0 <= t < disktables@.len() ==> old(self).has_inode(
                    (#[trigger] disktables@[t]).spec_id(),
                ),
            forall|t1: int, t2: int|
                0 <= t1 < t2 < disktables@.len() ==> (#[trigger] disktables@[t1]).spec_id() != (
                #[trigger] disktables@[t2]).spec_id(),
        ensures
            final(self).wf(),
            final(self).spec_last_rev() == old(self).spec_last_rev(),
            final(self).spec_file_counter() == old(self).spec_file_counter() + 1,
            d.wf(),
            d.spec_id() == old(self).spec_file_counter(),
            final(self).has_inode(d.spec_id()),
            forall|t: int|
                0 <= t < disktables@.len() ==> !final(self).has_inode(
                    (#[trigger] disktables@[t]).spec_id(),
                ),
            forall|id: u64|
                id != d.spec_id() && !(exists|t: int|
                    0 <= t < disktables@.len() && (#[trigger] disktables@[t]).spec_id() == id)
                    ==> final(self).has_inode(id) == old(self).has_inode(id),
            sorted_strict(d.spec_entries()),
            forall|m: int|
                0 <= m < d.spec_entries().len() ==> wins(
                    disktables@,
                    #[trigger] d.spec_entries()[m],
                ),
            forall|k: u64| #[trigger] any_has(disktables@, k) ==> exists|m: int|
                0 <= m < d.spec_entries().len() && d.spec_entries()[m].spec_key() == k,
    {
        let ghost ds = disktables@;
        let n = disktables.len();
        let mut pos: Vec<usize> = Vec::new();
        while pos.len() < n
            invariant
                pos@.len() <= n,
                forall|t: int| 0 <= t < pos@.len() ==> (#[trigger] pos@[t]) == 0,
            decreases n - pos@.len(),
        {
            pos.push(0);
        }
        let mut merged: Vec<DisktableEntry> = Vec::new();
        loop
            invariant
                n == ds.len(),
                ds == disktables@,
                pos@.len() == n,
                forall|t: int| 0 <= t < n ==> (#[trigger] pos@[t]) as int <= len_of(ds, t),
                forall|t: int| 0 <= t < n ==> (#[trigger] ds[t]).wf(),
                sorted_strict(merged@),
                forall|m: int| 0 <= m < merged@.len() ==> wins(ds, #[trigger] merged@[m]),
                covered(ds, pos@, merged@),
                merged@.len() == 0 ==> forall|t: int| 0 <= t < n ==> (#[trigger] pos@[t]) == 0,
                merged@.len() > 0 ==> processed_below(ds, pos@, merged@.last().spec_key()),
                merged@.len() > 0 ==> frontier_above(ds, pos@, merged@.last().spec_key()),
            ensures
                pos@.len() == n,
                forall|t: int| 0 <= t < n ==> (#[trigger] pos@[t]) as int <= len_of(ds, t),
                sorted_strict(merged@),
                forall|m: int| 0 <= m < merged@.len() ==> wins(ds, #[trigger] merged@[m]),
                covered(ds, pos@, merged@),
                forall|t: int| 0 <= t < n ==> !(#[trigger] live(ds, pos@, t)),
            decreases rem_sum(ds, pos@),
        {
            let ghost pos0 = pos@;
            let mut mink: u64 = 0;
            let mut have = false;
            let mut t: usize = 0;
            while t < n
                invariant
                    n == ds.len(),
                    ds == disktables@,
                    pos@ == pos0,
                    pos@.len() == n,
                    forall|tt: int| 0 <= tt < n ==> (#[trigger] pos@[tt]) as int <= len_of(ds, tt),
                    t <= n,
                    !have ==> forall|u: int| 0 <= u < t ==> !(#[trigger] live(ds, pos@, u)),
                    have ==> exists|u: int|
                        0 <= u < t && #[trigger] live(ds, pos@, u) && headkey(ds, pos@, u) == mink,
                    have ==> forall|u: int|
                        0 <= u < t && #[trigger] live(ds, pos@, u) ==> headkey(ds, pos@, u)
                            >= mink,
                decreases n - t,
            {
                if pos[t] < disktables[t].len() {
                    let k = disktables[t].read_pos(pos[t]).get_key();
                    if !have || k < mink {
                        mink = k;
                        have = true;
                    }
                    proof {
                        assert(live(ds, pos@, t as int));
                        assert(headkey(ds, pos@, t as int) == k);
                    }
                }
                t = t + 1;
            }
            if !have {
                break ;
            }
            let mut best: Option<DisktableEntry> = None;
            let mut t2: usize = 0;
            while t2 < n
                invariant
                    n == ds.len(),
                    ds == disktables@,
                    pos@.len() == n,
                    t2 <= n,
                    forall|tt: int| 0 <= tt < n ==> (#[trigger] pos@[tt]) as int <= len_of(ds, tt),
                    forall|u: int| t2 <= u < n ==> (#[trigger] pos@[u]) == pos0[u],
                    forall|u: int|
                        0 <= u < t2 ==> (#[trigger] pos@[u]) as int == (if live(ds, pos0, u)
                            && headkey(ds, pos0, u) == mink {
                            pos0[u] + 1
                        } else {
                            pos0[u] as int
                        }),
                    best_inv(ds, pos0, t2 as int, mink, best),
                decreases n - t2,
            {
                let ghost best0 = best;
                if pos[t2] < disktables[t2].len() {
                    let e = disktables[t2].read_pos(pos[t2]);
                    if e.get_key() == mink {
                        let better = match best {
                            None => true,
                            Some(b) => e.get_rev() > b.get_rev(),
                        };
                        if better {
                            best = Some(e);
                        }
                        pos.set(t2, pos[t2] + 1);
                        proof {
                            let ti = t2 as int;
                            assert(live(ds, pos0, ti));
                            assert(ent(ds, ti, pos0[ti] as int) == e);
                            assert(headkey(ds, pos0, ti) == mink);
                            match best {
                                Some(b2) => {
                                    assert(exists|u: int|
                                        0 <= u < ti + 1 && #[trigger] live(ds, pos0, u) && ent(
                                            ds,
                                            u,
                                            pos0[u] as int,
                                        ) == b2);
                                    assert forall|u: int|
                                        0 <= u < ti + 1 && #[trigger] live(ds, pos0, u) && headkey(
                                            ds,
                                            pos0,
                                            u,
                                        ) == mink implies ent(ds, u, pos0[u] as int).spec_rev()
                                        <= b2.spec_rev() by {
                                        if u < ti {
                                            match best0 {
                                                Some(b0) => {
                                                    assert(ent(ds, u, pos0[u] as int).spec_rev()
                                                        <= b0.spec_rev());
                                                },
                                                None => {
                                                },
                                            }
                                        }
                                    }
                                },
                                None => {
                                    assert(false);
                                },
                            }
                        }
                    } else {
                        proof {
                            assert(headkey(ds, pos0, t2 as int) != mink);
                        }
                    }
                } else {
                    proof {
                        assert(!live(ds, pos0, t2 as int));
                    }
                }
                t2 = t2 + 1;
            }
            match best {
                Some(b) => {
                    proof {
                        let lastk = if merged@.len() > 0 {
                            merged@.last().spec_key()
                        } else {
                            0u64
                        };
                        // the chosen record beats every input record for its key
                        assert forall|tt: int, i: int|
                            0 <= tt < n && 0 <= i < len_of(ds, tt) && (#[trigger] ent(
                                ds,
                                tt,
                                i,
                            )).spec_key() == mink implies i == pos0[tt] as int by {
                            if i < pos0[tt] {
                                assert(merged@.len() > 0 || pos0[tt] == 0);
                                assert(merged@.len() > 0);
                                assert(ent(ds, tt, i).spec_key() <= lastk);
                                let u = choose|u: int|
                                    0 <= u < n && #[trigger] live(ds, pos0, u) && headkey(
                                        ds,
                                        pos0,
                                        u,
                                    ) == mink;
                                assert(ent(ds, u, pos0[u] as int).spec_key() > lastk);
                                assert(false);
                            }
                            if i > pos0[tt] {
                                assert(live(ds, pos0, tt));
                                assert(headkey(ds, pos0, tt) >= mink);
                                assert(ds[tt].spec_entries()[pos0[tt] as int].spec_key()
                                    < ds[tt].spec_entries()[i].spec_key());
                                assert(false);
                            }
                        }
                        assert(wins(ds, b)) by {
                            let u = choose|u: int|
                                0 <= u < n && #[trigger] live(ds, pos0, u) && ent(
                                    ds,
                                    u,
                                    pos0[u] as int,
                                ) == b;
                            assert(entry_in(ds, b));
                            assert forall|tt: int, i: int|
                                0 <= tt < n && 0 <= i < len_of(ds, tt) && (#[trigger] ent(
                                    ds,
                                    tt,
                                    i,
                                )).spec_key() == b.spec_key() implies ent(ds, tt, i).spec_rev()
                                <= b.spec_rev() by {
                                assert(i == pos0[tt] as int);
                                assert(live(ds, pos0, tt) && headkey(ds, pos0, tt) == mink);
                            }
                        }
                        // the new key lies strictly above everything emitted
                        if merged@.len() > 0 {
                            let u = choose|u: int|
                                0 <= u < n && #[trigger] live(ds, pos0, u) && headkey(ds, pos0, u)
                                    == mink;
                            assert(ent(ds, u, pos0[u] as int).spec_key() > lastk);
                            assert(mink > lastk);
                        }
                    }
                    let ghost old_merged = merged@;
                    merged.push(b);
                    proof {
                        assert forall|a: int, c: int|
                            0 <= a < c < merged@.len() implies (#[trigger] merged@[a]).spec_key()
                            < (#[trigger] merged@[c]).spec_key() by {
                            if c < merged@.len() - 1 {
                                assert(old_merged[a].spec_key() < old_merged[c].spec_key());
                            } else {
                                assert(merged@[c] == b);
                                if merged@.len() > 1 {
                                    assert(old_merged[a].spec_key() <= old_merged[old_merged.len()
                                        - 1].spec_key()) by {
                                        if a < old_merged.len() - 1 {
                                            assert(old_merged[a].spec_key()
                                                < old_merged[old_merged.len() - 1].spec_key());
                                        }
                                    }
                                }
                            }
                        }
                        assert(merged@.last() == b);
                        assert forall|tt: int, j: int|
                            0 <= tt < n && 0 <= j < pos@[tt] implies (#[trigger] ent(
                                ds,
                                tt,
                                j,
                            )).spec_key() <= mink by {
                            if j < pos0[tt] {
                                assert(old_merged.len() > 0);
                                assert(ent(ds, tt, j).spec_key() <= old_merged.last().spec_key());
                                assert(old_merged.last().spec_key() < mink);
                            } else {
                                assert(live(ds, pos0, tt) && headkey(ds, pos0, tt) == mink);
                            }
                        }
                        assert forall|tt: int, j: int|
                            0 <= tt < n && pos@[tt] <= j < len_of(ds, tt) implies (#[trigger] ent(
                                ds,
                                tt,
                                j,
                            )).spec_key() > mink by {
                            assert(live(ds, pos0, tt));
                            assert(headkey(ds, pos0, tt) >= mink);
                            if pos@[tt] == pos0[tt] + 1 {
                                assert(headkey(ds, pos0, tt) == mink);
                                assert(ds[tt].spec_entries()[pos0[tt] as int].spec_key()
                                    < ds[tt].spec_entries()[j].spec_key());
                            } else {
                                assert(headkey(ds, pos0, tt) != mink);
                                if j > pos0[tt] {
                                    assert(ds[tt].spec_entries()[pos0[tt] as int].spec_key()
                                        < ds[tt].spec_entries()[j].spec_key());
                                }
                            }
                        }
                        assert forall|tt: int, j: int|
                            0 <= tt < n && 0 <= j < pos@[tt] implies exists|m: int|
                            0 <= m < merged@.len() && (#[trigger] merged@[m]).spec_key() == (
                        #[trigger] ent(ds, tt, j)).spec_key() by {
                            if j < pos0[tt] {
                                let m = choose|m: int|
                                    0 <= m < old_merged.len() && (#[trigger] old_merged[m]).spec_key()
                                        == ent(ds, tt, j).spec_key();
                                assert(merged@[m].spec_key() == ent(ds, tt, j).spec_key());
                            } else {
                                assert(merged@[merged@.len() - 1].spec_key() == mink);
                                assert(ent(ds, tt, j).spec_key() == mink);
                            }
                        }
                        let u = choose|u: int|
                            0 <= u < n && #[trigger] live(ds, pos0, u) && headkey(ds, pos0, u)
                                == mink;
                        lemma_rem_sum_decreases(ds, pos0, pos@, u);
                        lemma_rem_sum_nonneg(ds, pos@);
                    }
                },
                None => {
                    proof {
                        let u = choose|u: int|
                            0 <= u < n && #[trigger] live(ds, pos0, u) && headkey(ds, pos0, u)
                                == mink;
                        assert(false);
                    }
                },
            }
        }
        proof {
            assert forall|k: u64| #[trigger] any_has(ds, k) implies exists|m: int|
                0 <= m < merged@.len() && merged@[m].spec_key() == k by {
                let (tt, i) = choose|tt: int, i: int|
                    0 <= tt < ds.len() && 0 <= i < len_of(ds, tt) && #[trigger] ent(
                        ds,
                        tt,
                        i,
                    ).spec_key() == k;
                assert(!live(ds, pos@, tt));
                assert(i < pos@[tt]);
                let m = choose|m: int|
                    0 <= m < merged@.len() && (#[trigger] merged@[m]).spec_key() == ent(
                        ds,
                        tt,
                        i,
                    ).spec_key();
                assert(merged@[m].spec_key() == k);
            }
        }
        let mut t3: usize = 0;
        while t3 < n
            invariant
                n == disktables@.len(),
                self.wf(),
                self.spec_last_rev() == old(self).spec_last_rev(),
                self.spec_file_counter() == old(self).spec_file_counter(),
                t3 <= n,
                forall|t: int| 0 <= t < disktables@.len() ==> (#[trigger] disktables@[t]).wf(),
                forall|t1: int, t2v: int|
                    0 <= t1 < t2v < disktables@.len() ==> (#[trigger] disktables@[t1]).spec_id()
                        != (#[trigger] disktables@[t2v]).spec_id(),
                forall|t: int|
                    t3 <= t < n ==> self.has_inode((#[trigger] disktables@[t]).spec_id()),
                forall|t: int|
                    0 <= t < t3 ==> !self.has_inode((#[trigger] disktables@[t]).spec_id()),
                forall|id: u64|
                    !(exists|t: int|
                        0 <= t < disktables@.len() && (#[trigger] disktables@[t]).spec_id() == id)
                        ==> self.has_inode(id) == old(self).has_inode(id),
            decreases n - t3,
        {
            let _ = self.delete_file(disktables[t3].id());
            t3 = t3 + 1;
        }
        self.from_iter(merged)
    }
}

} // verus!

verus! {

/// Each record of a well-formed segment is what `seg_find` answers for its
/// key.
pub proof fn lemma_seg_find_entry(d: Disktable, j: int)
    requires
        d.wf(),
        0 <= j < d.spec_entries().len(),
    ensures
        d.seg_find(d.spec_entries()[j].spec_key()) == Some(d.spec_entries()[j]),
{
    let key = d.spec_entries()[j].spec_key();
    assert(d.seg_valid(j, key));
    assert forall|w: int| d.seg_valid(w, key) implies w == j by {
        if w != j {
            lemma_sorted_strict_distinct(d.spec_entries(), w, j);
        }
    }
}

/// What `seg_find` answers is a record of the segment, under its key.
pub proof fn lemma_seg_find_some(d: Disktable, key: u64, e: DisktableEntry)
    requires
        d.wf(),
        d.seg_find(key) == Some(e),
    ensures
        exists|j: int|
            0 <= j < d.spec_entries().len() && #[trigger] d.spec_entries()[j] == e
                && d.spec_entries()[j].spec_key() == key,
        e.spec_key() == key,
{
    assert(d.seg_has(key));
    let j = d.seg_at(key);
    assert(d.seg_valid(j, key));
    assert(d.spec_entries()[j] == e);
}

/// A missing `seg_find` answer means no record of the segment has the key.
pub proof fn lemma_seg_find_none(d: Disktable, key: u64)
    requires
        d.wf(),
        d.seg_find(key) is None,
    ensures
        forall|j: int|
            0 <= j < d.spec_entries().len() ==> (#[trigger] d.spec_entries()[j]).spec_key() != key,
{
    assert forall|j: int|
        0 <= j < d.spec_entries().len() implies (#[trigger] d.spec_entries()[j]).spec_key()
        != key by {
        if d.spec_entries()[j].spec_key() == key {
            assert(d.seg_valid(j, key));
            assert(d.seg_has(key));
        }
    }
}

} // verus!

verus! {

/// Tracked identities always lie below the repository's file counter.
pub proof fn lemma_has_inode_lt_counter(repo: DisktableRepository, id: u64)
    requires
        repo.wf(),
        repo.has_inode(id),
    ensures
        id < repo.spec_file_counter(),
{
    let i = choose|i: int| 0 <= i < repo.inodes@.len() && repo.inodes@[i] == id;
    assert(repo.inodes@[i] < repo.spec_file_counter());
}

} // verus!

verus! {

use crate::hash_table::HashTable;
use crate::lsmt::compaction::{lemma_fresh_id_for_add, lemma_total_segs_nonneg, TieredCompaction};

/// The log-structured merge tree: an in-memory write buffer in front of
/// tiered, immutable, key-sorted disk segments.
pub struct LSMTree {
    memtable: Memtable,
    compactor: TieredCompaction,
    repository: DisktableRepository,
    mem_sz_threshold: usize,
    disktable_num: usize,
}

impl LSMTree {
    pub closed spec fn wf(self) -> bool {
        &&& self.memtable.wf()
        &&& self.repository.wf()
        &&& self.compactor.wf_segs()
        &&& self.compactor.bounded()
        &&& self.compactor.distinct_ids()
        &&& self.compactor.registered(self.repository)
        &&& self.compactor.revs_distinct()
        &&& compaction::revs_below(self.compactor, self.repository.spec_last_rev())
        &&& self.mem_sz_threshold >= 1
        &&& self.memtable.spec_size() < self.mem_sz_threshold
    }

    pub closed spec fn spec_threshold(self) -> int {
        self.mem_sz_threshold as int
    }

    pub closed spec fn spec_last_rev(self) -> u64 {
        self.repository.spec_last_rev()
    }

    pub closed spec fn spec_mem_size(self) -> int {
        self.memtable.spec_size()
    }

    /// The buffered writes, as a map from key to insertion or tombstone.
    pub closed spec fn mem_view(self) -> Map<u64, Option<u64>> {
        self.memtable@
    }

    /// The compactor holding the live segments.
    pub closed spec fn spec_compactor(self) -> TieredCompaction {
        self.compactor
    }

    /// Machine-limit headroom for one more write: room for one revision, a
    /// handful of fresh file identities, and one more flush count.
    pub open spec fn headroom(self) -> bool {
        &&& self.spec_last_rev() < u64::MAX
        &&& self.spec_file_counter() as int + self.spec_compactor().total_segs() + 3 <= u64::MAX
        &&& self.spec_disktable_num() < usize::MAX
    }

    pub closed spec fn spec_file_counter(self) -> u64 {
        self.repository.spec_file_counter()
    }

    pub closed spec fn spec_disktable_num(self) -> int {
        self.disktable_num as int
    }

    /// A fresh engine: empty write buffer, no segments, revision counter at
    /// zero. Both capacities must be at least one.
    pub fn new(memtable_capacity: usize, max_tier_size: usize) -> (r: LSMTree)
        requires
            memtable_capacity >= 1,
            max_tier_size >= 1,
        ensures
            r.wf(),
            r.headroom(),
            r.spec_last_rev() == 0,
            r.mem_view() == Map::<u64, Option<u64>>::empty(),
            r.spec_mem_size() == 0,
            r.spec_threshold() == memtable_capacity,
            r.spec_compactor().total_segs() == 0,
            r.spec_compactor().disk_bytes() == 0,
            forall|k: u64| !r.spec_compactor().comp_has(k),
            r.spec_compactor().revs_distinct(),
    {
        LSMTree {
            memtable: Memtable::new(),
            compactor: TieredCompaction::new(max_tier_size),
            repository: DisktableRepository::new(),
            mem_sz_threshold: memtable_capacity,
            disktable_num: 0,
        }
    }

    /// Flush the write buffer into a fresh segment once it has reached the
    /// size threshold, then let the compactor cascade.
    fn flush_on_threshold(&mut self)
        requires
            old(self).memtable.wf(),
            old(self).repository.wf(),
            old(self).compactor.wf_segs(),
            old(self).compactor.bounded(),
            old(self).compactor.distinct_ids(),
            old(self).compactor.registered(old(self).repository),
            old(self).compactor.revs_distinct(),
            compaction::revs_below(old(self).compactor, old(self).repository.spec_last_rev()),
            old(self).mem_sz_threshold >= 1,
            old(self).memtable.spec_size() <= old(self).spec_threshold(),
            old(self).headroom(),
        ensures
            final(self).wf(),
            final(self).spec_threshold() == old(self).spec_threshold(),
            final(self).spec_file_counter() as int + final(self).spec_compactor().total_segs()
                <= old(self).spec_file_counter() as int + old(self).spec_compactor().total_segs()
                + 2,
            final(self).spec_disktable_num() <= old(self).spec_disktable_num() + 1,
            old(self).spec_mem_size() < old(self).spec_threshold() ==> *final(self) == *old(self),
            old(self).spec_mem_size() >= old(self).spec_threshold() ==> final(self).spec_last_rev()
                == old(self).spec_last_rev() + 1 && final(self).mem_view() == Map::<
                u64,
                Option<u64>,
            >::empty() && final(self).spec_mem_size() == 0 && (forall|k: u64|
                #[trigger] final(self).spec_compactor().comp_has(k) == (old(
                    self,
                ).spec_compactor().comp_has(k) || old(self).mem_view().dom().contains(k))) && (
            forall|k: u64|
                old(self).mem_view().dom().contains(k)
                    ==> #[trigger] final(self).spec_compactor().comp_wins(
                    stamp((k, old(self).mem_view()[k]), (old(self).spec_last_rev() + 1) as u64),
                )) && (forall|e: DisktableEntry|
                !old(self).mem_view().dom().contains(e.spec_key())
                    ==> #[trigger] final(self).spec_compactor().comp_wins(e) == old(
                    self,
                ).spec_compactor().comp_wins(e)),
            final(self).spec_last_rev() >= old(self).spec_last_rev(),
    {
        proof {
            lemma_total_segs_nonneg(self.compactor);
        }
        if self.memtable.len() >= self.mem_sz_threshold {
            let ghost r0 = self.repository;
            let disktable = self.repository.from_memtable(&self.memtable);
            proof {
                lemma_fresh_id_for_add(
                    self.compactor,
                    r0,
                    self.repository,
                    disktable.spec_id(),
                );
                assert forall|k: u64| #[trigger] disktable.seg_has(k) == self.memtable@.dom(
                ).contains(k) by {
                    lemma_seg_has_iff_entries(disktable, k);
                    if self.memtable@.dom().contains(k) {
                        assert(self.memtable.mt_has(k));
                        let i = choose|i: int| self.memtable.mt_valid(i, k);
                        assert(disktable.spec_entries()[i] == stamp(
                            self.memtable.item_at(i),
                            (r0.spec_last_rev() + 1) as u64,
                        ));
                        assert(disktable.spec_entries()[i].spec_key() == k);
                    }
                    if disktable.seg_has(k) {
                        let i = choose|i: int|
                            0 <= i < disktable.spec_entries().len() && (
                            #[trigger] disktable.spec_entries()[i]).spec_key() == k;
                        assert(disktable.spec_entries()[i] == stamp(
                            self.memtable.item_at(i),
                            (r0.spec_last_rev() + 1) as u64,
                        ));
                        assert(self.memtable.items@[i].0 == k);
                        assert(self.memtable.mt_valid(i, k));
                        assert(self.memtable@.dom().contains(k));
                    }
                }
            }
            let ghost oc = old(self).compactor;
            let ghost rev1 = (old(self).spec_last_rev() + 1) as u64;
            proof {
                assert forall|e: DisktableEntry| #[trigger] disktable.seg_record(
                    e,
                ) implies e.spec_rev() == rev1 && old(self).memtable@.dom().contains(
                    e.spec_key(),
                ) by {
                    let j = choose|j: int|
                        0 <= j < disktable.spec_entries().len()
                            && #[trigger] disktable.spec_entries()[j] == e;
                    assert(disktable.spec_entries()[j] == stamp(
                        old(self).memtable.item_at(j),
                        rev1,
                    ));
                    assert(old(self).memtable.mt_valid(j, e.spec_key()));
                    assert(old(self).memtable.mt_has(e.spec_key()));
                }
                assert(compaction::fresh_revs(oc, disktable)) by {
                    assert forall|e1: DisktableEntry, e2: DisktableEntry|
                        #[trigger] oc.record_in(e1) && #[trigger] disktable.seg_record(e2)
                            && e1.spec_key() == e2.spec_key() implies e1.spec_rev()
                        != e2.spec_rev() by {
                        assert(e1.spec_rev() <= old(self).spec_last_rev());
                        assert(e2.spec_rev() == rev1);
                    }
                }
                assert forall|k: u64|
                    old(self).memtable@.dom().contains(k) implies #[trigger] disktable.seg_record(
                    stamp((k, old(self).memtable@[k]), rev1),
                ) by {
                    assert(old(self).memtable.mt_has(k));
                    let i = choose|i: int| old(self).memtable.mt_valid(i, k);
                    assert(disktable.spec_entries()[i] == stamp(
                        old(self).memtable.item_at(i),
                        rev1,
                    ));
                    assert(old(self).memtable.mt_valid(old(self).memtable.mt_slot(k), k));
                    if old(self).memtable.mt_slot(k) != i {
                        lemma_sorted_pairs_distinct(
                            old(self).memtable.items@,
                            old(self).memtable.mt_slot(k),
                            i,
                        );
                        assert(false);
                    }
                    assert(stamp((k, old(self).memtable@[k]), rev1)
                        == disktable.spec_entries()[i]);
                }
            }
            self.compactor.add(&mut self.repository, disktable);
            proof {
                assert(compaction::revs_below(
                    self.compactor,
                    self.repository.spec_last_rev(),
                )) by {
                    assert forall|e: DisktableEntry| #[trigger] self.compactor.record_in(
                        e,
                    ) implies e.spec_rev() <= rev1 by {
                        assert(compaction::joint_in(oc, disktable, e));
                        if oc.record_in(e) {
                            assert(e.spec_rev() <= old(self).spec_last_rev());
                        } else {
                            assert(disktable.seg_record(e));
                        }
                    }
                }
                assert forall|k: u64|
                    old(self).mem_view().dom().contains(k) implies #[trigger] self.compactor.comp_wins(
                    stamp((k, old(self).mem_view()[k]), rev1),
                ) by {
                    let ed = stamp((k, old(self).mem_view()[k]), rev1);
                    assert(disktable.seg_record(ed));
                    assert(compaction::joint_in(oc, disktable, ed));
                    assert forall|e2: DisktableEntry|
                        #[trigger] compaction::joint_in(oc, disktable, e2) && e2.spec_key()
                            == ed.spec_key() implies e2.spec_rev() <= ed.spec_rev() by {
                        if oc.record_in(e2) {
                            assert(e2.spec_rev() <= old(self).spec_last_rev());
                        } else {
                            assert(disktable.seg_record(e2));
                        }
                    }
                    assert(compaction::joint_wins(oc, disktable, ed));
                }
                assert forall|e: DisktableEntry|
                    !old(self).mem_view().dom().contains(
                        e.spec_key(),
                    ) implies #[trigger] self.compactor.comp_wins(e) == old(
                    self,
                ).spec_compactor().comp_wins(e) by {
                    compaction::lemma_comp_wins_alt(oc, e);
                    if compaction::joint_wins(oc, disktable, e) {
                        assert(!disktable.seg_record(e));
                        assert(oc.record_in(e));
                        assert forall|e2: DisktableEntry|
                            #[trigger] oc.record_in(e2) && e2.spec_key()
                                == e.spec_key() implies e2.spec_rev() <= e.spec_rev() by {
                            assert(compaction::joint_in(oc, disktable, e2));
                        }
                        assert(compaction::rec_wins(oc, e));
                    }
                    if compaction::rec_wins(oc, e) {
                        assert(compaction::joint_in(oc, disktable, e));
                        assert forall|e2: DisktableEntry|
                            #[trigger] compaction::joint_in(oc, disktable, e2) && e2.spec_key()
                                == e.spec_key() implies e2.spec_rev() <= e.spec_rev() by {
                            if disktable.seg_record(e2) {
                                assert(old(self).memtable@.dom().contains(e2.spec_key()));
                                assert(false);
                            }
                            assert(oc.record_in(e2));
                        }
                        assert(compaction::joint_wins(oc, disktable, e));
                    }
                }
            }
            self.memtable.clear();
            self.disktable_num = self.disktable_num + 1;
        }
    }
}

impl HashTable for LSMTree {
    open spec fn inv(&self) -> bool {
        self.wf()
    }

    open spec fn set_pre(&self, key: u64, value: u64) -> bool {
        self.headroom()
    }

    /// A `set` records the write in the buffer (last writer wins); when the
    /// buffer reaches its threshold it is flushed under a fresh revision and
    /// cleared, otherwise nothing touches the disk. Revisions never move
    /// backwards.
    open spec fn set_post(&self, post: &Self, key: u64, value: u64) -> bool {
        let sz1: int = self.spec_mem_size() + if self.mem_view().dom().contains(key) {
            0int
        } else {
            1int
        };
        &&& post.spec_threshold() == self.spec_threshold()
        &&& post.spec_file_counter() as int + post.spec_compactor().total_segs()
            <= self.spec_file_counter() as int + self.spec_compactor().total_segs() + 2
        &&& post.spec_disktable_num() <= self.spec_disktable_num() + 1
        &&& (sz1 < self.spec_threshold() ==> post.mem_view() == self.mem_view().insert(
            key,
            Some(value),
        ) && post.spec_mem_size() == sz1 && post.spec_last_rev() == self.spec_last_rev()
            && post.spec_compactor() == self.spec_compactor() && post.spec_file_counter()
            == self.spec_file_counter() && post.spec_disktable_num() == self.spec_disktable_num())
        &&& (sz1 >= self.spec_threshold() ==> post.mem_view() == Map::<u64, Option<u64>>::empty()
            && post.spec_mem_size() == 0 && post.spec_last_rev() == self.spec_last_rev() + 1 && (
        forall|k: u64|
            #[trigger] post.spec_compactor().comp_has(k) == (self.spec_compactor().comp_has(k)
                || self.mem_view().insert(key, Some(value)).dom().contains(k))) && (forall|k: u64|
            self.mem_view().insert(key, Some(value)).dom().contains(k)
                ==> #[trigger] post.spec_compactor().comp_wins(
                stamp(
                    (k, self.mem_view().insert(key, Some(value))[k]),
                    (self.spec_last_rev() + 1) as u64,
                ),
            )) && (forall|e: DisktableEntry|
            !self.mem_view().insert(key, Some(value)).dom().contains(e.spec_key())
                ==> #[trigger] post.spec_compactor().comp_wins(e) == self.spec_compactor(
                ).comp_wins(e)))
        &&& post.spec_last_rev() >= self.spec_last_rev()
    }

    /// A buffered write is authoritative for its key (`Some` a value, `None`
    /// a local tombstone); otherwise the compactor answers, and the live
    /// record with the greatest revision decides.
    open spec fn get_post(&self, key: u64, r: Option<u64>) -> bool {
        if self.mem_view().dom().contains(key) {
            r == self.mem_view()[key]
        } else {
            self.spec_compactor().get_ok(key, r)
        }
    }

    open spec fn remove_pre(&self, key: u64) -> bool {
        self.headroom()
    }

    /// A `remove` buffers a tombstone for the key and flushes exactly like a
    /// `set`.
    open spec fn remove_post(&self, post: &Self, key: u64) -> bool {
        let sz1: int = self.spec_mem_size() + if self.mem_view().dom().contains(key) {
            0int
        } else {
            1int
        };
        &&& post.spec_threshold() == self.spec_threshold()
        &&& post.spec_file_counter() as int + post.spec_compactor().total_segs()
            <= self.spec_file_counter() as int + self.spec_compactor().total_segs() + 2
        &&& post.spec_disktable_num() <= self.spec_disktable_num() + 1
        &&& (sz1 < self.spec_threshold() ==> post.mem_view() == self.mem_view().insert(key, None)
            && post.spec_mem_size() == sz1 && post.spec_last_rev() == self.spec_last_rev()
            && post.spec_compactor() == self.spec_compactor() && post.spec_file_counter()
            == self.spec_file_counter() && post.spec_disktable_num() == self.spec_disktable_num())
        &&& (sz1 >= self.spec_threshold() ==> post.mem_view() == Map::<u64, Option<u64>>::empty()
            && post.spec_mem_size() == 0 && post.spec_last_rev() == self.spec_last_rev() + 1 && (
        forall|k: u64|
            #[trigger] post.spec_compactor().comp_has(k) == (self.spec_compactor().comp_has(k)
                || self.mem_view().insert(key, None).dom().contains(k))) && (forall|k: u64|
            self.mem_view().insert(key, None).dom().contains(k)
                ==> #[trigger] post.spec_compactor().comp_wins(
                stamp(
                    (k, self.mem_view().insert(key, None)[k]),
                    (self.spec_last_rev() + 1) as u64,
                ),
            )) && (forall|e: DisktableEntry|
            !self.mem_view().insert(key, None).dom().contains(e.spec_key())
                ==> #[trigger] post.spec_compactor().comp_wins(e) == self.spec_compactor(
                ).comp_wins(e)))
        &&& post.spec_last_rev() >= self.spec_last_rev()
    }

    /// The engine does not keep a logical item count; it reports the number
    /// of buffered writes.
    open spec fn len_post(&self, r: usize) -> bool {
        r == self.spec_mem_size()
    }

    open spec fn size_pre(&self) -> bool {
        self.spec_compactor().disk_bytes() <= usize::MAX
    }

    /// The byte footprint is the sum of the live segment files' lengths.
    open spec fn size_post(&self, r: usize) -> bool {
        r == self.spec_compactor().disk_bytes()
    }

    fn set(&mut self, key: u64, value: u64) {
        self.memtable.insert(key, Some(value));
        self.flush_on_threshold();
    }

    fn get(&self, key: u64) -> (r: Option<u64>) {
        if let Some(value) = self.memtable.get(key) {
            return value;
        }
        self.compactor.get(key)
    }

    fn remove(&mut self, key: u64) {
        self.memtable.insert(key, None);
        self.flush_on_threshold();
    }

    fn len(&self) -> (r: usize) {
        self.memtable.len()
    }

    fn on_disk_size(&self) -> (r: usize) {
        self.compactor.on_disk_size()
    }
}

} // verus!

verus! {

impl LSMTree {
    /// One `(filename, file content)` pair per live segment, for the program
    /// that mirrors segments to disk.
    pub fn segment_files(&self) -> (r: Vec<(Vec<u8>, Vec<u8>)>)
        requires
            self.wf(),
        ensures
            forall|m: int|
                0 <= m < r@.len() ==> compaction::pair_of_some_segment(
                    self.spec_compactor(),
                    #[trigger] r@[m],
                ),
            r@.len() == self.spec_compactor().total_segs(),
            forall|l: int, i: int|
                self.spec_compactor().valid_pos(l, i) ==> #[trigger] compaction::pos_listed(
                    self.spec_compactor(),
                    r@,
                    l,
                    i,
                ),
    {
        self.compactor.segment_files()
    }
}

} // verus!

verus! {

/// A segment holds `k` exactly when one of its records carries `k`.
pub proof fn lemma_seg_has_iff_entries(d: Disktable, k: u64)
    ensures
        d.seg_has(k) == (exists|i: int|
            0 <= i < d.spec_entries().len() && (#[trigger] d.spec_entries()[i]).spec_key() == k),
{
    if d.seg_has(k) {
        let i = choose|i: int| d.seg_valid(i, k);
        assert(d.spec_entries()[i].spec_key() == k);
    }
    if exists|i: int|
        0 <= i < d.spec_entries().len() && (#[trigger] d.spec_entries()[i]).spec_key() == k {
        let i = choose|i: int|
            0 <= i < d.spec_entries().len() && (#[trigger] d.spec_entries()[i]).spec_key() == k;
        assert(d.seg_valid(i, k));
    }
}

/// Merging never invents and never loses keys: the output holds exactly the
/// keys the inputs held.
pub proof fn lemma_merge_keys(ds: Seq<Disktable>, out: Disktable, k: u64)
    requires
        out.wf(),
        forall|m: int| 0 <= m < out.spec_entries().len() ==> wins(ds, #[trigger] out.spec_entries()[m]),
        forall|k2: u64| #[trigger] any_has(ds, k2) ==> exists|m: int|
            0 <= m < out.spec_entries().len() && out.spec_entries()[m].spec_key() == k2,
    ensures
        out.seg_has(k) == any_has(ds, k),
{
    lemma_seg_has_iff_entries(out, k);
    if out.seg_has(k) {
        let m = choose|m: int|
            0 <= m < out.spec_entries().len() && (#[trigger] out.spec_entries()[m]).spec_key()
                == k;
        let e = out.spec_entries()[m];
        assert(wins(ds, e));
        let (t, i) = choose|t: int, i: int|
            0 <= t < ds.len() && 0 <= i < len_of(ds, t) && #[trigger] ent(ds, t, i) == e;
        assert(ent(ds, t, i).spec_key() == k);
        assert(any_has(ds, k));
    }
}

} // verus!

verus! {

impl Disktable {
    /// `e` is one of this segment's records.
    pub open spec fn seg_record(self, e: DisktableEntry) -> bool {
        exists|j: int|
            0 <= j < self.spec_entries().len() && #[trigger] self.spec_entries()[j] == e
    }
}

/// In a well-formed segment, holding the record `e` is the same as answering
/// `e` for its key.
pub proof fn lemma_seg_record_find(d: Disktable, e: DisktableEntry)
    requires
        d.wf(),
    ensures
        d.seg_record(e) == (d.seg_find(e.spec_key()) == Some(e)),
{
    if d.seg_record(e) {
        let j = choose|j: int|
            0 <= j < d.spec_entries().len() && #[trigger] d.spec_entries()[j] == e;
        lemma_seg_find_entry(d, j);
    }
    if d.seg_find(e.spec_key()) == Some(e) {
        lemma_seg_find_some(d, e.spec_key(), e);
    }
}

} // verus!

verus! {

/// What well-formedness guarantees about the disk state: sorted bounded
/// segments whose records never share a revision per key (ties are impossible
/// by construction) and whose revisions stay below the revision counter.
pub proof fn lemma_lsm_wf_compactor(t: LSMTree)
    requires
        t.wf(),
    ensures
        t.spec_compactor().wf_segs(),
        t.spec_compactor().bounded(),
        t.spec_compactor().revs_distinct(),
        compaction::revs_below(t.spec_compactor(), t.spec_last_rev()),
{
}

} // verus!
