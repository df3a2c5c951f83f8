//! Tiered compaction: live segments are organized into levels; when a level
//! holds more files than the threshold its whole content is merged into one
//! segment pushed onto the next level. Point lookups consult every segment
//! and let the greatest revision win, because tiered levels do not order
//! revisions.

use crate::lsmt::{Disktable, DisktableEntry, DisktableRepository};
use vstd::prelude::*;

verus! {

pub struct TieredCompaction {
    max_files_per_level: usize,
    levels: Vec<Vec<Disktable>>,
}

/// Number of segments across a sequence of levels.
pub closed spec fn seg_count(ls: Seq<Vec<Disktable>>) -> int
    decreases ls.len(),
{
    if ls.len() == 0 {
        0
    } else {
        seg_count(ls.drop_last()) + ls.last()@.len()
    }
}

proof fn lemma_seg_count_nonneg(ls: Seq<Vec<Disktable>>)
    ensures
        seg_count(ls) >= 0,
    decreases ls.len(),
{
    if ls.len() > 0 {
        lemma_seg_count_nonneg(ls.drop_last());
    }
}

proof fn lemma_seg_count_update(ls: Seq<Vec<Disktable>>, k: int, v: Vec<Disktable>)
    requires
        0 <= k < ls.len(),
    ensures
        seg_count(ls.update(k, v)) == seg_count(ls) - ls[k]@.len() + v@.len(),
    decreases ls.len(),
{
    if k == ls.len() - 1 {
        assert(ls.update(k, v).drop_last() =~= ls.drop_last());
        assert(ls.update(k, v).last() == v);
    } else {
        lemma_seg_count_update(ls.drop_last(), k, v);
        assert(ls.update(k, v).drop_last() =~= ls.drop_last().update(k, v));
        assert(ls.update(k, v).last() == ls.last());
    }
}

proof fn lemma_seg_count_prefix(ls: Seq<Vec<Disktable>>, i: int)
    requires
        0 <= i < ls.len(),
    ensures
        seg_count(ls.subrange(0, i + 1)) == seg_count(ls.subrange(0, i)) + ls[i]@.len(),
{
    assert(ls.subrange(0, i + 1).drop_last() =~= ls.subrange(0, i));
    assert(ls.subrange(0, i + 1).last() == ls[i]);
}

proof fn lemma_seg_count_push(ls: Seq<Vec<Disktable>>, v: Vec<Disktable>)
    ensures
        seg_count(ls.push(v)) == seg_count(ls) + v@.len(),
{
    assert(ls.push(v).drop_last() =~= ls);
    assert(ls.push(v).last() == v);
}

/// Byte footprint of one level.
pub closed spec fn level_bytes(l: Seq<Disktable>) -> int
    decreases l.len(),
{
    if l.len() == 0 {
        0
    } else {
        level_bytes(l.drop_last()) + l.last().file_image().len()
    }
}

/// Byte footprint of all levels.
pub closed spec fn levels_bytes(ls: Seq<Vec<Disktable>>) -> int
    decreases ls.len(),
{
    if ls.len() == 0 {
        0
    } else {
        levels_bytes(ls.drop_last()) + level_bytes(ls.last()@)
    }
}

proof fn lemma_level_bytes_nonneg(l: Seq<Disktable>)
    ensures
        level_bytes(l) >= 0,
    decreases l.len(),
{
    if l.len() > 0 {
        lemma_level_bytes_nonneg(l.drop_last());
    }
}

proof fn lemma_level_bytes_prefix(l: Seq<Disktable>, i: int)
    requires
        0 <= i < l.len(),
    ensures
        level_bytes(l.subrange(0, i + 1)) == level_bytes(l.subrange(0, i)) + l[i].file_image().len(),
{
    assert(l.subrange(0, i + 1).drop_last() =~= l.subrange(0, i));
    assert(l.subrange(0, i + 1).last() == l[i]);
}

proof fn lemma_levels_bytes_nonneg(ls: Seq<Vec<Disktable>>)
    ensures
        levels_bytes(ls) >= 0,
    decreases ls.len(),
{
    if ls.len() > 0 {
        lemma_levels_bytes_nonneg(ls.drop_last());
        lemma_level_bytes_nonneg(ls.last()@);
    }
}

proof fn lemma_levels_bytes_prefix(ls: Seq<Vec<Disktable>>, i: int)
    requires
        0 <= i < ls.len(),
    ensures
        levels_bytes(ls.subrange(0, i + 1)) == levels_bytes(ls.subrange(0, i)) + level_bytes(
            ls[i]@,
        ),
{
    assert(ls.subrange(0, i + 1).drop_last() =~= ls.subrange(0, i));
    assert(ls.subrange(0, i + 1).last() == ls[i]);
}

/// Suffix sums are bounded by the whole, since every summand is nonnegative.
proof fn lemma_levels_bytes_bound(ls: Seq<Vec<Disktable>>, i: int)
    requires
        0 <= i <= ls.len(),
    ensures
        levels_bytes(ls.subrange(0, i)) <= levels_bytes(ls),
    decreases ls.len() - i,
{
    if i == ls.len() {
        assert(ls.subrange(0, i) =~= ls);
    } else {
        lemma_levels_bytes_prefix(ls, i);
        lemma_level_bytes_nonneg(ls[i]@);
        lemma_levels_bytes_bound(ls, i + 1);
    }
}

proof fn lemma_level_bytes_bound(l: Seq<Disktable>, i: int)
    requires
        0 <= i <= l.len(),
    ensures
        level_bytes(l.subrange(0, i)) <= level_bytes(l),
    decreases l.len() - i,
{
    if i == l.len() {
        assert(l.subrange(0, i) =~= l);
    } else {
        lemma_level_bytes_prefix(l, i);
        lemma_level_bytes_bound(l, i + 1);
    }
}

impl TieredCompaction {
    pub closed spec fn n_levels(self) -> int {
        self.levels@.len() as int
    }

    pub closed spec fn level_len(self, l: int) -> int {
        self.levels@[l]@.len() as int
    }

    pub closed spec fn seg(self, l: int, i: int) -> Disktable {
        self.levels@[l]@[i]
    }

    pub closed spec fn valid_pos(self, l: int, i: int) -> bool {
        0 <= l < self.n_levels() && 0 <= i < self.level_len(l)
    }

    pub closed spec fn spec_max_files_per_level(self) -> int {
        self.max_files_per_level as int
    }

    /// Number of live segments.
    pub closed spec fn total_segs(self) -> int {
        seg_count(self.levels@)
    }

    /// Total byte footprint of the live segments.
    pub closed spec fn disk_bytes(self) -> int {
        levels_bytes(self.levels@)
    }

    /// Every segment is well-formed (key-sorted, image in sync).
    pub closed spec fn wf_segs(self) -> bool {
        &&& self.max_files_per_level >= 1
        &&& forall|l: int, i: int| self.valid_pos(l, i) ==> (#[trigger] self.seg(l, i)).wf()
    }

    /// No two live segments share an identity.
    pub closed spec fn distinct_ids(self) -> bool {
        forall|l1: int, i1: int, l2: int, i2: int|
            self.valid_pos(l1, i1) && self.valid_pos(l2, i2) && (l1 != l2 || i1 != i2) ==> (
            #[trigger] self.seg(l1, i1)).spec_id() != (#[trigger] self.seg(l2, i2)).spec_id()
    }

    /// Every live segment is tracked by the repository.
    pub closed spec fn registered(self, repo: DisktableRepository) -> bool {
        forall|l: int, i: int|
            self.valid_pos(l, i) ==> repo.has_inode((#[trigger] self.seg(l, i)).spec_id())
    }

    /// No level holds more files than the threshold (the state the cascade
    /// restores before `add` returns).
    pub closed spec fn bounded(self) -> bool {
        forall|l: int|
            0 <= l < self.n_levels() ==> #[trigger] self.level_len(l)
                <= self.spec_max_files_per_level()
    }

    /// No live segment is tracked under this identity.
    pub closed spec fn id_free(self, id: u64) -> bool {
        forall|l: int, i: int|
            self.valid_pos(l, i) ==> (#[trigger] self.seg(l, i)).spec_id() != id
    }

    /// A live segment holds a record for `k`.
    pub closed spec fn comp_has(self, k: u64) -> bool {
        exists|l: int, i: int| self.valid_pos(l, i) && (#[trigger] self.seg(l, i)).seg_has(k)
    }

    /// `e` is a live record whose revision is at least that of every live
    /// record with the same key: the authoritative record for that key.
    pub closed spec fn comp_wins(self, e: DisktableEntry) -> bool {
        &&& exists|l: int, i: int|
            self.valid_pos(l, i) && (#[trigger] self.seg(l, i)).seg_find(e.spec_key()) == Some(e)
        &&& forall|l: int, i: int, j: int|
            self.valid_pos(l, i) && 0 <= j < self.seg(l, i).spec_entries().len() && (
            #[trigger] self.seg(l, i).spec_entries()[j]).spec_key() == e.spec_key() ==> self.seg(
                l,
                i,
            ).spec_entries()[j].spec_rev() <= e.spec_rev()
    }

    /// Across two different live segments, records for one key never share a
    /// revision.
    pub closed spec fn revs_distinct(self) -> bool {
        forall|l1: int, i1: int, j1: int, l2: int, i2: int, j2: int|
            self.valid_pos(l1, i1) && self.valid_pos(l2, i2) && (l1 != l2 || i1 != i2) && 0 <= j1
                < self.seg(l1, i1).spec_entries().len() && 0 <= j2 < self.seg(
                l2,
                i2,
            ).spec_entries().len() && (#[trigger] self.seg(l1, i1).spec_entries()[j1]).spec_key()
                == (#[trigger] self.seg(l2, i2).spec_entries()[j2]).spec_key() ==> self.seg(
                l1,
                i1,
            ).spec_entries()[j1].spec_rev() != self.seg(l2, i2).spec_entries()[j2].spec_rev()
    }

    /// What a point lookup may answer: a value only from an authoritative
    /// insertion, emptiness only on a miss or an authoritative tombstone.
    pub open spec fn get_ok(self, key: u64, r: Option<u64>) -> bool {
        match r {
            Some(v) => exists|rv: u64|
                #[trigger] self.comp_wins(DisktableEntry::Insert { rev: rv, key, value: v }),
            None => !self.comp_has(key) || (exists|rv: u64|
                #[trigger] self.comp_wins(DisktableEntry::Delete { rev: rv, key })),
        }
    }

    pub fn new(max_files_per_level: usize) -> (r: TieredCompaction)
        requires
            max_files_per_level >= 1,
        ensures
            r.wf_segs(),
            r.distinct_ids(),
            forall|repo: DisktableRepository| r.registered(repo),
            r.n_levels() == 0,
            r.total_segs() == 0,
            r.disk_bytes() == 0,
            r.revs_distinct(),
            r.spec_max_files_per_level() == max_files_per_level,
            r.bounded(),
            forall|k: u64| !r.comp_has(k),
            forall|e: DisktableEntry| !r.record_in(e),
    {
        let r = TieredCompaction { max_files_per_level, levels: Vec::new() };
        proof {
            assert forall|k: u64| !r.comp_has(k) by {
                if r.comp_has(k) {
                    let (l, i) = choose|l: int, i: int|
                        r.valid_pos(l, i) && (#[trigger] r.seg(l, i)).seg_has(k);
                    assert(false);
                }
            }
            assert forall|e: DisktableEntry| !r.record_in(e) by {
                if r.record_in(e) {
                    let (l, i) = choose|l: int, i: int|
                        r.valid_pos(l, i) && (#[trigger] r.seg(l, i)).seg_record(e);
                    assert(false);
                }
            }
        }
        r
    }
}

} // verus!

verus! {

use crate::lsmt::{
    any_has, lemma_has_inode_lt_counter, lemma_merge_keys, lemma_seg_has_iff_entries,
};

impl TieredCompaction {
    /// Append the fresh segment to level 0, then cascade: while a level
    /// holds more files than the threshold, merge its whole content into one
    /// segment on the next level.
    #[verifier::rlimit(100)]
    pub fn add(&mut self, repo: &mut DisktableRepository, disktable: Disktable)
        requires
            old(self).wf_segs(),
            old(self).distinct_ids(),
            old(self).registered(*old(repo)),
            old(repo).wf(),
            disktable.wf(),
            old(repo).has_inode(disktable.spec_id()),
            old(self).id_free(disktable.spec_id()),
            old(self).bounded(),
            old(repo).spec_file_counter() as int + old(self).total_segs() + 2 <= u64::MAX,
        ensures
            final(self).wf_segs(),
            final(self).distinct_ids(),
            final(self).registered(*final(repo)),
            final(repo).wf(),
            final(repo).spec_last_rev() == old(repo).spec_last_rev(),
            final(self).spec_max_files_per_level() == old(self).spec_max_files_per_level(),
            final(self).bounded(),
            final(repo).spec_file_counter() as int + final(self).total_segs() <= old(
                repo,
            ).spec_file_counter() as int + old(self).total_segs() + 1,
            forall|k: u64|
                #[trigger] final(self).comp_has(k) == (old(self).comp_has(k)
                    || disktable.seg_has(k)),
            forall|e: DisktableEntry|
                #[trigger] final(self).record_in(e) ==> joint_in(*old(self), disktable, e),
            old(self).revs_distinct() && fresh_revs(*old(self), disktable)
                ==> final(self).revs_distinct() && (forall|e: DisktableEntry|
                #[trigger] final(self).comp_wins(e) == joint_wins(*old(self), disktable, e)),
    {
        let ghost cond = old(self).revs_distinct() && fresh_revs(*old(self), disktable);
        let ghost bound = old(repo).spec_file_counter() as int + old(self).total_segs() + 2;
        if self.levels.len() == 0 {
            self.levels.push(Vec::new());
            proof {
                lemma_seg_count_push(old(self).levels@, self.levels@[0]);
                assert forall|k: u64| #[trigger] self.comp_has(k) == old(self).comp_has(k) by {
                    if old(self).comp_has(k) {
                        let (l, i) = choose|l: int, i: int|
                            old(self).valid_pos(l, i) && (#[trigger] old(self).seg(l, i)).seg_has(
                                k,
                            );
                        assert(false);
                    }
                    if self.comp_has(k) {
                        let (l, i) = choose|l: int, i: int|
                            self.valid_pos(l, i) && (#[trigger] self.seg(l, i)).seg_has(k);
                        assert(false);
                    }
                }
                assert forall|e: DisktableEntry| #[trigger] self.record_in(e) == old(
                    self,
                ).record_in(e) by {
                    if old(self).record_in(e) {
                        let (l, i) = choose|l: int, i: int|
                            old(self).valid_pos(l, i) && (#[trigger] old(self).seg(
                                l,
                                i,
                            )).seg_record(e);
                        assert(false);
                    }
                    if self.record_in(e) {
                        let (l, i) = choose|l: int, i: int|
                            self.valid_pos(l, i) && (#[trigger] self.seg(l, i)).seg_record(e);
                        assert(false);
                    }
                }
            }
        }
        let ghost s0 = *self;
        self.levels[0].push(disktable);
        proof {
            let l0 = self.levels@[0];
            lemma_seg_count_update(s0.levels@, 0, l0);
            assert(self.total_segs() == s0.total_segs() + 1);
            assert forall|l: int, i: int| self.valid_pos(l, i) implies (#[trigger] self.seg(
                l,
                i,
            )).wf() && repo.has_inode(self.seg(l, i).spec_id()) by {
                if l != 0 || i < s0.level_len(0) {
                    assert(self.seg(l, i) == s0.seg(l, i));
                } else {
                    assert(self.seg(l, i) == disktable);
                }
            }
            assert forall|l1: int, i1: int, l2: int, i2: int|
                self.valid_pos(l1, i1) && self.valid_pos(l2, i2) && (l1 != l2 || i1
                    != i2) implies (#[trigger] self.seg(l1, i1)).spec_id() != (#[trigger] self.seg(
                l2,
                i2,
            )).spec_id() by {
                if (l1 != 0 || i1 < s0.level_len(0)) && (l2 != 0 || i2 < s0.level_len(0)) {
                    assert(self.seg(l1, i1) == s0.seg(l1, i1));
                    assert(self.seg(l2, i2) == s0.seg(l2, i2));
                } else if l1 == 0 && i1 == s0.level_len(0) {
                    assert(self.seg(l1, i1) == disktable);
                    assert(self.seg(l2, i2) == s0.seg(l2, i2));
                } else {
                    assert(self.seg(l2, i2) == disktable);
                    assert(self.seg(l1, i1) == s0.seg(l1, i1));
                }
            }
        }
        proof {
            assert forall|k: u64| #[trigger] self.comp_has(k) == (s0.comp_has(k)
                || disktable.seg_has(k)) by {
                if s0.comp_has(k) {
                    let (l, i) = choose|l: int, i: int|
                        s0.valid_pos(l, i) && (#[trigger] s0.seg(l, i)).seg_has(k);
                    assert(self.seg(l, i) == s0.seg(l, i));
                    assert(self.valid_pos(l, i) && self.seg(l, i).seg_has(k));
                }
                if disktable.seg_has(k) {
                    assert(self.seg(0, s0.level_len(0)) == disktable);
                    assert(self.valid_pos(0, s0.level_len(0)));
                }
                if self.comp_has(k) {
                    let (l, i) = choose|l: int, i: int|
                        self.valid_pos(l, i) && (#[trigger] self.seg(l, i)).seg_has(k);
                    if l == 0 && i == s0.level_len(0) {
                        assert(self.seg(l, i) == disktable);
                    } else {
                        assert(self.seg(l, i) == s0.seg(l, i));
                        assert(s0.valid_pos(l, i));
                    }
                }
            }
            assert forall|e: DisktableEntry| #[trigger] self.record_in(e) == (s0.record_in(e)
                || disktable.seg_record(e)) by {
                if s0.record_in(e) {
                    let (l, i) = choose|l: int, i: int|
                        s0.valid_pos(l, i) && (#[trigger] s0.seg(l, i)).seg_record(e);
                    assert(self.seg(l, i) == s0.seg(l, i));
                    assert(self.valid_pos(l, i) && self.seg(l, i).seg_record(e));
                }
                if disktable.seg_record(e) {
                    assert(self.seg(0, s0.level_len(0)) == disktable);
                    assert(self.valid_pos(0, s0.level_len(0)));
                }
                if self.record_in(e) {
                    let (l, i) = choose|l: int, i: int|
                        self.valid_pos(l, i) && (#[trigger] self.seg(l, i)).seg_record(e);
                    if l == 0 && i == s0.level_len(0) {
                        assert(self.seg(l, i) == disktable);
                    } else {
                        assert(self.seg(l, i) == s0.seg(l, i));
                        assert(s0.valid_pos(l, i));
                    }
                }
            }
        }
        proof {
            if cond {
                assert forall|l1: int, i1: int, j1: int, l2: int, i2: int, j2: int|
                    self.valid_pos(l1, i1) && self.valid_pos(l2, i2) && (l1 != l2 || i1 != i2) && 0
                        <= j1 < self.seg(l1, i1).spec_entries().len() && 0 <= j2 < self.seg(
                        l2,
                        i2,
                    ).spec_entries().len() && (#[trigger] self.seg(
                        l1,
                        i1,
                    ).spec_entries()[j1]).spec_key() == (#[trigger] self.seg(
                        l2,
                        i2,
                    ).spec_entries()[j2]).spec_key() implies self.seg(
                    l1,
                    i1,
                ).spec_entries()[j1].spec_rev() != self.seg(l2, i2).spec_entries()[j2].spec_rev() by {
                    let dpos = s0.level_len(0);
                    let e1 = self.seg(l1, i1).spec_entries()[j1];
                    let e2 = self.seg(l2, i2).spec_entries()[j2];
                    if l1 == 0 && i1 == dpos {
                        assert(self.seg(l1, i1) == disktable);
                        assert(disktable.seg_record(e1));
                        assert(self.seg(l2, i2) == s0.seg(l2, i2) && s0.valid_pos(l2, i2));
                        assert(s0.seg(l2, i2) == old(self).seg(l2, i2) && old(self).valid_pos(
                            l2,
                            i2,
                        ));
                        assert(old(self).seg(l2, i2).seg_record(e2));
                        assert(old(self).record_in(e2));
                    } else if l2 == 0 && i2 == dpos {
                        assert(self.seg(l2, i2) == disktable);
                        assert(disktable.seg_record(e2));
                        assert(self.seg(l1, i1) == s0.seg(l1, i1) && s0.valid_pos(l1, i1));
                        assert(s0.seg(l1, i1) == old(self).seg(l1, i1) && old(self).valid_pos(
                            l1,
                            i1,
                        ));
                        assert(old(self).seg(l1, i1).seg_record(e1));
                        assert(old(self).record_in(e1));
                    } else {
                        assert(self.seg(l1, i1) == s0.seg(l1, i1) && s0.valid_pos(l1, i1));
                        assert(self.seg(l2, i2) == s0.seg(l2, i2) && s0.valid_pos(l2, i2));
                        assert(s0.seg(l1, i1) == old(self).seg(l1, i1) && old(self).valid_pos(
                            l1,
                            i1,
                        ));
                        assert(s0.seg(l2, i2) == old(self).seg(l2, i2) && old(self).valid_pos(
                            l2,
                            i2,
                        ));
                        assert(old(self).seg(l1, i1).spec_entries()[j1] == e1);
                        assert(old(self).seg(l2, i2).spec_entries()[j2] == e2);
                    }
                }
                assert(self.revs_distinct());
                assert forall|e: DisktableEntry| #[trigger] rec_wins(*self, e) == joint_wins(
                    *old(self),
                    disktable,
                    e,
                ) by {
                    if rec_wins(*self, e) {
                        assert(joint_in(*old(self), disktable, e));
                        assert forall|e2: DisktableEntry|
                            #[trigger] joint_in(*old(self), disktable, e2) && e2.spec_key()
                                == e.spec_key() implies e2.spec_rev() <= e.spec_rev() by {
                            assert(self.record_in(e2));
                        }
                    }
                    if joint_wins(*old(self), disktable, e) {
                        assert(self.record_in(e));
                        assert forall|e2: DisktableEntry|
                            #[trigger] self.record_in(e2) && e2.spec_key()
                                == e.spec_key() implies e2.spec_rev() <= e.spec_rev() by {
                            assert(joint_in(*old(self), disktable, e2));
                        }
                    }
                }
            }
            assert forall|l: int|
                0 <= l < self.n_levels() && l != 0 implies #[trigger] self.level_len(l)
                <= self.spec_max_files_per_level() by {
                assert(self.levels@[l] == s0.levels@[l]);
                if l < old(self).n_levels() {
                    assert(s0.levels@[l] == old(self).levels@[l]);
                    assert(old(self).level_len(l) <= old(self).spec_max_files_per_level());
                } else {
                    assert(s0.levels@[l]@.len() == 0);
                }
            }
        }
        let ghost g0 = *self;
        let mut level: usize = 0;
        while self.levels[level].len() > self.max_files_per_level
            invariant
                forall|l: int|
                    0 <= l < self.n_levels() && l != level as int ==> #[trigger] self.level_len(l)
                        <= self.spec_max_files_per_level(),
                forall|e: DisktableEntry| #[trigger] self.record_in(e) ==> g0.record_in(e),
                forall|e: DisktableEntry|
                    #[trigger] g0.record_in(e) == (old(self).record_in(e) || disktable.seg_record(
                        e,
                    )),
                cond == (old(self).revs_distinct() && fresh_revs(*old(self), disktable)),
                cond ==> self.revs_distinct(),
                cond ==> (forall|e: DisktableEntry|
                    #[trigger] rec_wins(*self, e) == joint_wins(*old(self), disktable, e)),
                forall|k: u64| #[trigger] self.comp_has(k) == g0.comp_has(k),
                forall|k: u64| #[trigger] g0.comp_has(k) == (old(self).comp_has(k)
                    || disktable.seg_has(k)),
                (level as int) < self.n_levels(),
                self.wf_segs(),
                self.distinct_ids(),
                self.registered(*repo),
                repo.wf(),
                repo.spec_last_rev() == old(repo).spec_last_rev(),
                repo.spec_file_counter() as int + self.total_segs() + 1 <= bound,
                bound <= u64::MAX,
                self.spec_max_files_per_level() == old(self).spec_max_files_per_level(),
            decreases self.total_segs(),
        {
            let ghost c0 = *self;
            let ghost r0 = *repo;
            let mut temp: Vec<Disktable> = Vec::new();
            core::mem::swap(&mut self.levels[level], &mut temp);
            let ghost lv = level as int;
            proof {
                assert(self.levels@ =~= c0.levels@.update(lv, self.levels@[lv]));
                assert(self.levels@[lv]@.len() == 0);
                lemma_seg_count_update(c0.levels@, lv, self.levels@[lv]);
                assert(temp@ == c0.levels@[lv]@);
                assert(self.total_segs() == c0.total_segs() - temp@.len());
                lemma_seg_count_nonneg(self.levels@);
                assert forall|t: int| 0 <= t < temp@.len() implies (#[trigger] temp@[t]).wf() by {
                    assert(temp@[t] == c0.seg(lv, t));
                }
                assert forall|t: int| 0 <= t < temp@.len() implies repo.has_inode(
                    (#[trigger] temp@[t]).spec_id(),
                ) by {
                    assert(temp@[t] == c0.seg(lv, t));
                }
                assert forall|t1: int, t2: int|
                    0 <= t1 < t2 < temp@.len() implies (#[trigger] temp@[t1]).spec_id() != (
                #[trigger] temp@[t2]).spec_id() by {
                    assert(temp@[t1] == c0.seg(lv, t1));
                    assert(temp@[t2] == c0.seg(lv, t2));
                }
                assert forall|l: int, i: int| self.valid_pos(l, i) implies #[trigger] self.seg(
                    l,
                    i,
                ) == c0.seg(l, i) && c0.valid_pos(l, i) by {
                    assert(l != lv);
                    assert(self.levels@[l] == c0.levels@[l]);
                }
                assert forall|l: int, i: int| self.valid_pos(l, i) implies (#[trigger] self.seg(
                    l,
                    i,
                )).wf() by {
                    assert(self.seg(l, i) == c0.seg(l, i) && c0.valid_pos(l, i));
                    assert(c0.seg(l, i).wf());
                }
                assert forall|l: int, i: int| self.valid_pos(l, i) implies repo.has_inode(
                    (#[trigger] self.seg(l, i)).spec_id(),
                ) by {
                    assert(self.seg(l, i) == c0.seg(l, i) && c0.valid_pos(l, i));
                }
                assert forall|l1: int, i1: int, l2: int, i2: int|
                    self.valid_pos(l1, i1) && self.valid_pos(l2, i2) && (l1 != l2 || i1
                        != i2) implies (#[trigger] self.seg(l1, i1)).spec_id() != (
                #[trigger] self.seg(l2, i2)).spec_id() by {
                    assert(self.seg(l1, i1) == c0.seg(l1, i1) && c0.valid_pos(l1, i1));
                    assert(self.seg(l2, i2) == c0.seg(l2, i2) && c0.valid_pos(l2, i2));
                }
                assert forall|e: DisktableEntry|
                    (#[trigger] self.record_in(e) || in_tables(temp@, e)) == c0.record_in(e) by {
                    if self.record_in(e) {
                        let (l, i) = choose|l: int, i: int|
                            self.valid_pos(l, i) && (#[trigger] self.seg(l, i)).seg_record(e);
                        assert(self.seg(l, i) == c0.seg(l, i) && c0.valid_pos(l, i));
                        assert(c0.record_in(e));
                    }
                    if in_tables(temp@, e) {
                        let t = choose|t: int|
                            0 <= t < temp@.len() && (#[trigger] temp@[t]).seg_record(e);
                        assert(temp@[t] == c0.seg(lv, t));
                        assert(c0.valid_pos(lv, t) && c0.seg(lv, t).seg_record(e));
                        assert(c0.record_in(e));
                    }
                    if c0.record_in(e) {
                        let (l, i) = choose|l: int, i: int|
                            c0.valid_pos(l, i) && (#[trigger] c0.seg(l, i)).seg_record(e);
                        if l == lv {
                            assert(temp@[i] == c0.seg(lv, i));
                            assert(in_tables(temp@, e));
                        } else {
                            assert(self.seg(l, i) == c0.seg(l, i));
                            assert(self.valid_pos(l, i) && self.seg(l, i).seg_record(e));
                        }
                    }
                }
                assert forall|k: u64| (#[trigger] self.comp_has(k) || any_has(temp@, k))
                    == c0.comp_has(k) by {
                    if self.comp_has(k) {
                        let (l, i) = choose|l: int, i: int|
                            self.valid_pos(l, i) && (#[trigger] self.seg(l, i)).seg_has(k);
                        assert(self.seg(l, i) == c0.seg(l, i) && c0.valid_pos(l, i));
                        assert(c0.comp_has(k));
                    }
                    if any_has(temp@, k) {
                        let (t, w) = choose|t: int, w: int|
                            0 <= t < temp@.len() && 0 <= w < crate::lsmt::len_of(temp@, t)
                                && #[trigger] crate::lsmt::ent(temp@, t, w).spec_key() == k;
                        assert(temp@[t] == c0.seg(lv, t));
                        lemma_seg_has_iff_entries(c0.seg(lv, t), k);
                        assert(c0.valid_pos(lv, t) && c0.seg(lv, t).seg_has(k));
                        assert(c0.comp_has(k));
                    }
                    if c0.comp_has(k) {
                        let (l, i) = choose|l: int, i: int|
                            c0.valid_pos(l, i) && (#[trigger] c0.seg(l, i)).seg_has(k);
                        if l == lv {
                            assert(temp@[i] == c0.seg(lv, i));
                            lemma_seg_has_iff_entries(c0.seg(lv, i), k);
                            let w = choose|w: int|
                                0 <= w < c0.seg(lv, i).spec_entries().len() && (#[trigger] c0.seg(
                                    lv,
                                    i,
                                ).spec_entries()[w]).spec_key() == k;
                            assert(0 <= i < temp@.len() && 0 <= w < crate::lsmt::len_of(temp@, i)
                                && crate::lsmt::ent(temp@, i, w).spec_key() == k);
                            assert(any_has(temp@, k));
                        } else {
                            assert(self.seg(l, i) == c0.seg(l, i));
                            assert(self.valid_pos(l, i) && self.seg(l, i).seg_has(k));
                        }
                    }
                }
            }
            let ghost c1 = *self;
            proof {
                assert(self.levels@.len() == c0.levels@.len());
            }
            let n_now = self.levels.len();
            if level + 1 == n_now {
                self.levels.push(Vec::new());
                proof {
                    lemma_seg_count_push(c1.levels@, self.levels@[self.levels@.len() as int - 1]);
                    assert forall|l: int, i: int| self.valid_pos(l, i) implies #[trigger] self.seg(
                        l,
                        i,
                    ) == c1.seg(l, i) && c1.valid_pos(l, i) by {
                        assert(self.levels@[l]@.len() > 0);
                        assert(l < c1.n_levels());
                        assert(self.levels@[l] == c1.levels@[l]);
                    }
                    assert forall|l: int, i: int| self.valid_pos(l, i) implies (#[trigger] self.seg(
                        l,
                        i,
                    )).wf() by {
                        assert(self.seg(l, i) == c1.seg(l, i) && c1.valid_pos(l, i));
                    }
                    assert forall|l: int, i: int| self.valid_pos(l, i) implies repo.has_inode(
                        (#[trigger] self.seg(l, i)).spec_id(),
                    ) by {
                        assert(self.seg(l, i) == c1.seg(l, i) && c1.valid_pos(l, i));
                    }
                    assert forall|l1: int, i1: int, l2: int, i2: int|
                        self.valid_pos(l1, i1) && self.valid_pos(l2, i2) && (l1 != l2 || i1
                            != i2) implies (#[trigger] self.seg(l1, i1)).spec_id() != (
                    #[trigger] self.seg(l2, i2)).spec_id() by {
                        assert(self.seg(l1, i1) == c1.seg(l1, i1) && c1.valid_pos(l1, i1));
                        assert(self.seg(l2, i2) == c1.seg(l2, i2) && c1.valid_pos(l2, i2));
                    }
                    assert forall|k: u64| #[trigger] self.comp_has(k) == c1.comp_has(k) by {
                        if self.comp_has(k) {
                            let (l, i) = choose|l: int, i: int|
                                self.valid_pos(l, i) && (#[trigger] self.seg(l, i)).seg_has(k);
                            assert(self.seg(l, i) == c1.seg(l, i) && c1.valid_pos(l, i));
                        }
                        if c1.comp_has(k) {
                            let (l, i) = choose|l: int, i: int|
                                c1.valid_pos(l, i) && (#[trigger] c1.seg(l, i)).seg_has(k);
                            assert(self.valid_pos(l, i));
                            assert(self.seg(l, i) == c1.seg(l, i));
                        }
                    }
                    assert forall|e: DisktableEntry| #[trigger] self.record_in(e) == c1.record_in(
                        e,
                    ) by {
                        if self.record_in(e) {
                            let (l, i) = choose|l: int, i: int|
                                self.valid_pos(l, i) && (#[trigger] self.seg(l, i)).seg_record(e);
                            assert(self.seg(l, i) == c1.seg(l, i) && c1.valid_pos(l, i));
                        }
                        if c1.record_in(e) {
                            let (l, i) = choose|l: int, i: int|
                                c1.valid_pos(l, i) && (#[trigger] c1.seg(l, i)).seg_record(e);
                            assert(self.valid_pos(l, i));
                            assert(self.seg(l, i) == c1.seg(l, i));
                        }
                    }
                }
            }
            let ghost c2 = *self;
            let m = repo.merge(temp);
            proof {
                assert forall|l: int, i: int| self.valid_pos(l, i) implies repo.has_inode(
                    (#[trigger] self.seg(l, i)).spec_id(),
                ) by {
                    assert(self.seg(l, i) == c1.seg(l, i));
                    let sid = self.seg(l, i).spec_id();
                    assert(r0.has_inode(sid));
                    lemma_has_inode_lt_counter(r0, sid);
                    assert(sid != m.spec_id());
                    if exists|t: int| 0 <= t < temp@.len() && (#[trigger] temp@[t]).spec_id()
                        == sid {
                        let t = choose|t: int|
                            0 <= t < temp@.len() && (#[trigger] temp@[t]).spec_id() == sid;
                        assert(temp@[t] == c0.seg(lv, t));
                        assert(c0.seg(l, i).spec_id() != c0.seg(lv, t).spec_id());
                        assert(false);
                    }
                }
            }
            let ghost r1 = *repo;
            let ghost c3 = *self;
            self.levels[level + 1].push(m);
            proof {
                let nl = lv + 1;
                lemma_seg_count_update(c3.levels@, nl, self.levels@[nl]);
                assert(self.total_segs() == c3.total_segs() + 1);
                assert(c3.total_segs() == c0.total_segs() - temp@.len());
                assert(temp@.len() > self.max_files_per_level >= 1);
                assert(self.total_segs() < c0.total_segs());
                lemma_seg_count_nonneg(self.levels@);
                assert forall|l: int, i: int| self.valid_pos(l, i) implies (#[trigger] self.seg(
                    l,
                    i,
                )).wf() by {
                    if l != nl || i < c3.level_len(nl) {
                        assert(self.seg(l, i) == c3.seg(l, i) && c3.valid_pos(l, i));
                    } else {
                        assert(self.seg(l, i) == m);
                    }
                }
                assert forall|l: int, i: int| self.valid_pos(l, i) implies repo.has_inode(
                    (#[trigger] self.seg(l, i)).spec_id(),
                ) by {
                    if l != nl || i < c3.level_len(nl) {
                        assert(self.seg(l, i) == c3.seg(l, i) && c3.valid_pos(l, i));
                    } else {
                        assert(self.seg(l, i) == m);
                    }
                }
                assert forall|l1: int, i1: int, l2: int, i2: int|
                    self.valid_pos(l1, i1) && self.valid_pos(l2, i2) && (l1 != l2 || i1
                        != i2) implies (#[trigger] self.seg(l1, i1)).spec_id() != (
                #[trigger] self.seg(l2, i2)).spec_id() by {
                    if (l1 != nl || i1 < c3.level_len(nl)) && (l2 != nl || i2 < c3.level_len(nl)) {
                        assert(self.seg(l1, i1) == c3.seg(l1, i1));
                        assert(self.seg(l2, i2) == c3.seg(l2, i2));
                    } else if l1 == nl && i1 == c3.level_len(nl) {
                        assert(self.seg(l1, i1) == m);
                        assert(self.seg(l2, i2) == c3.seg(l2, i2));
                        let sid = c3.seg(l2, i2).spec_id();
                        assert(r0.has_inode(sid));
                        lemma_has_inode_lt_counter(r0, sid);
                    } else {
                        assert(self.seg(l2, i2) == m);
                        assert(self.seg(l1, i1) == c3.seg(l1, i1));
                        let sid = c3.seg(l1, i1).spec_id();
                        assert(r0.has_inode(sid));
                        lemma_has_inode_lt_counter(r0, sid);
                    }
                }
                assert forall|e: DisktableEntry| #[trigger] m.seg_record(e) implies in_tables(
                    temp@,
                    e,
                ) by {
                    let j = choose|j: int|
                        0 <= j < m.spec_entries().len() && #[trigger] m.spec_entries()[j] == e;
                    assert(wins(temp@, m.spec_entries()[j]));
                    assert(entry_in(temp@, e));
                    let (t, i) = choose|t: int, i: int|
                        0 <= t < temp@.len() && 0 <= i < crate::lsmt::len_of(temp@, t)
                            && #[trigger] crate::lsmt::ent(temp@, t, i) == e;
                    assert(temp@[t].spec_entries()[i] == e);
                    assert(temp@[t].seg_record(e));
                }
                assert forall|e: DisktableEntry|
                    #[trigger] self.record_in(e) == (c3.record_in(e) || m.seg_record(e)) by {
                    if c3.record_in(e) {
                        let (l, i) = choose|l: int, i: int|
                            c3.valid_pos(l, i) && (#[trigger] c3.seg(l, i)).seg_record(e);
                        assert(self.seg(l, i) == c3.seg(l, i));
                        assert(self.valid_pos(l, i) && self.seg(l, i).seg_record(e));
                    }
                    if m.seg_record(e) {
                        assert(self.seg(nl, c3.level_len(nl)) == m);
                        assert(self.valid_pos(nl, c3.level_len(nl)));
                    }
                    if self.record_in(e) {
                        let (l, i) = choose|l: int, i: int|
                            self.valid_pos(l, i) && (#[trigger] self.seg(l, i)).seg_record(e);
                        if l == nl && i == c3.level_len(nl) {
                            assert(self.seg(l, i) == m);
                        } else {
                            assert(self.seg(l, i) == c3.seg(l, i));
                            assert(c3.valid_pos(l, i));
                        }
                    }
                }
                assert forall|e: DisktableEntry| #[trigger] self.record_in(e) implies g0.record_in(
                    e,
                ) by {
                    if c3.record_in(e) {
                        assert(c1.record_in(e));
                        assert(c0.record_in(e));
                    } else {
                        assert(m.seg_record(e));
                        assert(in_tables(temp@, e));
                        assert(c0.record_in(e));
                    }
                }
                if cond {
                    assert forall|e: DisktableEntry| #[trigger] in_tables(temp@, e) implies exists|
                        o: DisktableEntry,
                    |
                        #[trigger] m.seg_record(o) && o.spec_key() == e.spec_key() && o.spec_rev()
                            >= e.spec_rev() by {
                        let t = choose|t: int|
                            0 <= t < temp@.len() && (#[trigger] temp@[t]).seg_record(e);
                        let w = choose|j: int|
                            0 <= j < temp@[t].spec_entries().len() && #[trigger] temp@[
                                t
                            ].spec_entries()[j] == e;
                        assert(crate::lsmt::ent(temp@, t, w) == e);
                        assert(any_has(temp@, e.spec_key()));
                        let idx = choose|mm: int|
                            0 <= mm < m.spec_entries().len() && m.spec_entries()[mm].spec_key()
                                == e.spec_key();
                        let o = m.spec_entries()[idx];
                        assert(m.seg_record(o));
                        assert(wins(temp@, o));
                        assert(e.spec_rev() <= o.spec_rev());
                    }
                    assert forall|l1: int, i1: int, j1: int, l2: int, i2: int, j2: int|
                        self.valid_pos(l1, i1) && self.valid_pos(l2, i2) && (l1 != l2 || i1 != i2)
                            && 0 <= j1 < self.seg(l1, i1).spec_entries().len() && 0 <= j2
                            < self.seg(l2, i2).spec_entries().len() && (#[trigger] self.seg(
                            l1,
                            i1,
                        ).spec_entries()[j1]).spec_key() == (#[trigger] self.seg(
                            l2,
                            i2,
                        ).spec_entries()[j2]).spec_key() implies self.seg(
                        l1,
                        i1,
                    ).spec_entries()[j1].spec_rev() != self.seg(
                        l2,
                        i2,
                    ).spec_entries()[j2].spec_rev() by {
                        let nlpos = c3.level_len(nl);
                        let e1 = self.seg(l1, i1).spec_entries()[j1];
                        let e2 = self.seg(l2, i2).spec_entries()[j2];
                        if l1 == nl && i1 == nlpos {
                            assert(self.seg(l1, i1) == m);
                            assert(m.seg_record(e1));
                            assert(in_tables(temp@, e1));
                            let t1 = choose|t: int|
                                0 <= t < temp@.len() && (#[trigger] temp@[t]).seg_record(e1);
                            let w1 = choose|j: int|
                                0 <= j < temp@[t1].spec_entries().len() && #[trigger] temp@[
                                    t1
                                ].spec_entries()[j] == e1;
                            assert(temp@[t1] == c0.seg(lv, t1));
                            assert(self.seg(l2, i2) == c3.seg(l2, i2) && c3.valid_pos(l2, i2));
                            assert(c3.seg(l2, i2) == c1.seg(l2, i2) && c1.valid_pos(l2, i2));
                            assert(l2 != lv);
                            assert(c1.seg(l2, i2) == c0.seg(l2, i2) && c0.valid_pos(l2, i2));
                            assert(c0.seg(lv, t1).spec_entries()[w1] == e1);
                            assert(c0.seg(l2, i2).spec_entries()[j2] == e2);
                        } else if l2 == nl && i2 == nlpos {
                            assert(self.seg(l2, i2) == m);
                            assert(m.seg_record(e2));
                            assert(in_tables(temp@, e2));
                            let t2 = choose|t: int|
                                0 <= t < temp@.len() && (#[trigger] temp@[t]).seg_record(e2);
                            let w2 = choose|j: int|
                                0 <= j < temp@[t2].spec_entries().len() && #[trigger] temp@[
                                    t2
                                ].spec_entries()[j] == e2;
                            assert(temp@[t2] == c0.seg(lv, t2));
                            assert(self.seg(l1, i1) == c3.seg(l1, i1) && c3.valid_pos(l1, i1));
                            assert(c3.seg(l1, i1) == c1.seg(l1, i1) && c1.valid_pos(l1, i1));
                            assert(l1 != lv);
                            assert(c1.seg(l1, i1) == c0.seg(l1, i1) && c0.valid_pos(l1, i1));
                            assert(c0.seg(lv, t2).spec_entries()[w2] == e2);
                            assert(c0.seg(l1, i1).spec_entries()[j1] == e1);
                        } else {
                            assert(self.seg(l1, i1) == c3.seg(l1, i1) && c3.valid_pos(l1, i1));
                            assert(self.seg(l2, i2) == c3.seg(l2, i2) && c3.valid_pos(l2, i2));
                            assert(c3.seg(l1, i1) == c1.seg(l1, i1) && c1.valid_pos(l1, i1));
                            assert(c3.seg(l2, i2) == c1.seg(l2, i2) && c1.valid_pos(l2, i2));
                            assert(l1 != lv && l2 != lv);
                            assert(c1.seg(l1, i1) == c0.seg(l1, i1) && c0.valid_pos(l1, i1));
                            assert(c1.seg(l2, i2) == c0.seg(l2, i2) && c0.valid_pos(l2, i2));
                            assert(c0.seg(l1, i1).spec_entries()[j1] == e1);
                            assert(c0.seg(l2, i2).spec_entries()[j2] == e2);
                        }
                    }
                    assert(self.revs_distinct());
                    assert forall|e: DisktableEntry| #[trigger] in_tables(temp@, e) implies c0.record_in(e) by {
                        let t = choose|t: int|
                            0 <= t < temp@.len() && (#[trigger] temp@[t]).seg_record(e);
                        assert(temp@[t] == c0.levels@[lv]@[t]);
                        assert(c0.valid_pos(lv, t) && c0.seg(lv, t).seg_record(e));
                    }
                    let ghost nlpos = c3.level_len(nl);
                    assert forall|e: DisktableEntry| #[trigger] m.seg_record(e) implies self.record_in(e) by {
                        assert(self.seg(nl, nlpos) == m);
                        assert(self.valid_pos(nl, nlpos));
                    }
                    assert forall|e: DisktableEntry| #[trigger] self.record_in(e) implies c0.record_in(e) by {
                        let (l, i) = choose|l: int, i: int|
                            self.valid_pos(l, i) && (#[trigger] self.seg(l, i)).seg_record(e);
                        if l == nl && i == nlpos {
                            assert(self.seg(l, i) == m);
                            assert(in_tables(temp@, e));
                            assert(c0.record_in(e));
                        } else {
                            assert(self.seg(l, i) == c3.seg(l, i) && c3.valid_pos(l, i));
                            if l >= c1.n_levels() {
                                assert(c3.level_len(l) == 0);
                                assert(false);
                            }
                            assert(c3.levels@[l] == c1.levels@[l]);
                            assert(l != lv);
                            assert(c1.levels@[l] == c0.levels@[l]);
                            assert(c0.valid_pos(l, i) && c0.seg(l, i).seg_record(e));
                        }
                    }
                    assert forall|e: DisktableEntry|
                        #[trigger] c0.record_in(e) implies self.record_in(e) || in_tables(
                        temp@,
                        e,
                    ) by {
                        let (l, i) = choose|l: int, i: int|
                            c0.valid_pos(l, i) && (#[trigger] c0.seg(l, i)).seg_record(e);
                        if l == lv {
                            assert(temp@[i] == c0.levels@[lv]@[i]);
                            assert(in_tables(temp@, e));
                        } else {
                            assert(c1.levels@[l] == c0.levels@[l]);
                            assert(c3.levels@[l] == c1.levels@[l]);
                            if l == nl {
                                assert(i < nlpos);
                                assert(self.levels@[nl]@[i] == c3.levels@[nl]@[i]);
                            } else {
                                assert(self.levels@[l] == c3.levels@[l]);
                            }
                            assert(self.valid_pos(l, i) && self.seg(l, i).seg_record(e));
                        }
                    }
                    assert forall|e1: DisktableEntry, e2: DisktableEntry|
                        #[trigger] in_tables(temp@, e1) && #[trigger] in_tables(temp@, e2)
                            && e1.spec_key() == e2.spec_key() && e1.spec_rev()
                            == e2.spec_rev() implies e1 == e2 by {
                        let t1 = choose|t: int|
                            0 <= t < temp@.len() && (#[trigger] temp@[t]).seg_record(e1);
                        let w1 = choose|j: int|
                            0 <= j < temp@[t1].spec_entries().len() && #[trigger] temp@[
                                t1
                            ].spec_entries()[j] == e1;
                        let t2 = choose|t: int|
                            0 <= t < temp@.len() && (#[trigger] temp@[t]).seg_record(e2);
                        let w2 = choose|j: int|
                            0 <= j < temp@[t2].spec_entries().len() && #[trigger] temp@[
                                t2
                            ].spec_entries()[j] == e2;
                        assert(temp@[t1] == c0.levels@[lv]@[t1]);
                        assert(temp@[t2] == c0.levels@[lv]@[t2]);
                        if t1 != t2 {
                            assert(c0.seg(lv, t1).spec_entries()[w1] == e1);
                            assert(c0.seg(lv, t2).spec_entries()[w2] == e2);
                            assert(false);
                        } else if w1 != w2 {
                            assert(c0.seg(lv, t1).wf());
                            lemma_sorted_strict_distinct(temp@[t1].spec_entries(), w1, w2);
                            assert(false);
                        }
                    }
                    lemma_winners_preserved(c0, *self, temp@, m);
                    assert forall|e: DisktableEntry| #[trigger] rec_wins(*self, e) == joint_wins(
                        *old(self),
                        disktable,
                        e,
                    ) by {
                        assert(rec_wins(*self, e) == rec_wins(c0, e));
                        assert(rec_wins(c0, e) == joint_wins(*old(self), disktable, e));
                    }
                }
                assert forall|k: u64| #[trigger] self.comp_has(k) == g0.comp_has(k) by {
                    lemma_merge_keys(temp@, m, k);
                    assert((c3.comp_has(k) || any_has(temp@, k)) == c0.comp_has(k));
                    if self.comp_has(k) {
                        let (l, i) = choose|l: int, i: int|
                            self.valid_pos(l, i) && (#[trigger] self.seg(l, i)).seg_has(k);
                        if l == nl && i == c3.level_len(nl) {
                            assert(self.seg(l, i) == m);
                            assert(any_has(temp@, k));
                        } else {
                            assert(self.seg(l, i) == c3.seg(l, i));
                            assert(c3.valid_pos(l, i));
                            assert(c3.comp_has(k));
                        }
                        assert(c0.comp_has(k));
                    }
                    if c0.comp_has(k) {
                        if c3.comp_has(k) {
                            let (l, i) = choose|l: int, i: int|
                                c3.valid_pos(l, i) && (#[trigger] c3.seg(l, i)).seg_has(k);
                            assert(self.valid_pos(l, i));
                            assert(self.seg(l, i) == c3.seg(l, i));
                        } else {
                            assert(any_has(temp@, k));
                            assert(m.seg_has(k));
                            assert(self.valid_pos(nl, c3.level_len(nl)));
                            assert(self.seg(nl, c3.level_len(nl)) == m);
                        }
                        assert(self.comp_has(k));
                    }
                }
            }
            proof {
                let nl = lv + 1;
                assert forall|l: int|
                    0 <= l < self.n_levels() && l != nl implies #[trigger] self.level_len(l)
                    <= self.spec_max_files_per_level() by {
                    assert(self.levels@[l] == c3.levels@[l]);
                    if l == lv {
                        assert(c1.levels@[lv]@.len() == 0);
                        assert(c3.levels@[l] == c1.levels@[l]);
                    } else {
                        if l < c1.n_levels() {
                            assert(c3.levels@[l] == c1.levels@[l]);
                            assert(c1.levels@[l] == c0.levels@[l]);
                            assert(c0.level_len(l) <= c0.spec_max_files_per_level());
                        } else {
                            assert(c3.levels@[l]@.len() == 0);
                        }
                    }
                }
            }
            level = level + 1;
        }
        proof {
            if cond {
                assert forall|e: DisktableEntry| #[trigger] self.comp_wins(e) == joint_wins(
                    *old(self),
                    disktable,
                    e,
                ) by {
                    lemma_comp_wins_alt(*self, e);
                }
            }
        }
    }
}

} // verus!

verus! {

use crate::lsmt::{lemma_seg_find_entry, lemma_seg_find_none, lemma_seg_find_some};

impl TieredCompaction {
    /// The positions the point-lookup scan has already visited when the
    /// outer loop is at level `l` and the inner (newest-first) loop at `j`.
    pub closed spec fn scanned(self, l: int, j: int, l2: int, i2: int) -> bool {
        self.valid_pos(l2, i2) && (l2 < l || (l2 == l && i2 >= j))
    }

    /// What the scan knows: `best` is the greatest-revision record for `key`
    /// among the visited segments.
    pub closed spec fn scan_inv(
        self,
        key: u64,
        best: Option<DisktableEntry>,
        l: int,
        j: int,
    ) -> bool {
        match best {
            None => forall|l2: int, i2: int|
                self.scanned(l, j, l2, i2) ==> !(#[trigger] self.seg(l2, i2)).seg_has(key),
            Some(b) => {
                &&& b.spec_key() == key
                &&& exists|l2: int, i2: int|
                    self.scanned(l, j, l2, i2) && (#[trigger] self.seg(l2, i2)).seg_find(key)
                        == Some(b)
                &&& forall|l2: int, i2: int, jj: int|
                    self.scanned(l, j, l2, i2) && 0 <= jj < self.seg(l2, i2).spec_entries().len()
                        && (#[trigger] self.seg(l2, i2).spec_entries()[jj]).spec_key() == key
                        ==> self.seg(l2, i2).spec_entries()[jj].spec_rev() <= b.spec_rev()
            },
        }
    }

    /// Scan every segment of every level; the record with the greatest
    /// revision is authoritative, whatever its level, because tiered levels
    /// do not order revisions. A winning tombstone reads as empty.
    pub fn get(&self, key: u64) -> (r: Option<u64>)
        requires
            self.wf_segs(),
        ensures
            self.get_ok(key, r),
    {
        let mut best: Option<DisktableEntry> = None;
        let mut l: usize = 0;
        while l < self.levels.len()
            invariant
                self.wf_segs(),
                l <= self.n_levels(),
                l < self.n_levels() ==> self.scan_inv(key, best, l as int, self.level_len(l as int)),
                l == self.n_levels() ==> self.scan_inv(key, best, l as int, 0),
            decreases self.n_levels() - l,
        {
            let mut j: usize = self.levels[l].len();
            while j > 0
                invariant
                    self.wf_segs(),
                    (l as int) < self.n_levels(),
                    j <= self.level_len(l as int),
                    self.scan_inv(key, best, l as int, j as int),
                decreases j,
            {
                j = j - 1;
                let ghost best0 = best;
                proof {
                    assert(self.levels@[l as int]@[j as int] == self.seg(l as int, j as int));
                    assert(self.seg(l as int, j as int).wf());
                }
                let found = self.levels[l][j].find_entry(key);
                match found {
                    Some(e) => {
                        let better = match best {
                            None => true,
                            Some(b) => e.get_rev() > b.get_rev(),
                        };
                        if better {
                            best = Some(e);
                        }
                        proof {
                            let li = l as int;
                            let ji = j as int;
                            lemma_seg_find_some(self.seg(li, ji), key, e);
                            match best {
                                Some(b2) => {
                                    assert(exists|l2: int, i2: int|
                                        self.scanned(li, ji, l2, i2) && (#[trigger] self.seg(
                                            l2,
                                            i2,
                                        )).seg_find(key) == Some(b2)) by {
                                        if better {
                                            assert(self.scanned(li, ji, li, ji) && self.seg(
                                                li,
                                                ji,
                                            ).seg_find(key) == Some(e));
                                        } else {
                                            let (l3, i3) = choose|l3: int, i3: int|
                                                self.scanned(li, ji + 1, l3, i3) && (
                                                #[trigger] self.seg(l3, i3)).seg_find(key)
                                                    == Some(b2);
                                            assert(self.scanned(li, ji, l3, i3));
                                        }
                                    }
                                    assert forall|l2: int, i2: int, jj: int|
                                        self.scanned(li, ji, l2, i2) && 0 <= jj < self.seg(
                                            l2,
                                            i2,
                                        ).spec_entries().len() && (#[trigger] self.seg(
                                            l2,
                                            i2,
                                        ).spec_entries()[jj]).spec_key() == key implies self.seg(
                                            l2,
                                            i2,
                                        ).spec_entries()[jj].spec_rev() <= b2.spec_rev() by {
                                        if l2 == li && i2 == ji {
                                            lemma_seg_find_entry(self.seg(li, ji), jj);
                                            assert(self.seg(li, ji).spec_entries()[jj] == e);
                                            match best0 {
                                                Some(b0) => {
                                                    if !better {
                                                        assert(e.spec_rev() <= b0.spec_rev());
                                                    }
                                                },
                                                None => {
                                                },
                                            }
                                        } else {
                                            assert(self.scanned(li, ji + 1, l2, i2));
                                            match best0 {
                                                Some(b0) => {
                                                    assert(self.seg(
                                                        l2,
                                                        i2,
                                                    ).spec_entries()[jj].spec_rev()
                                                        <= b0.spec_rev());
                                                },
                                                None => {
                                                    assert(self.seg(l2, i2).seg_valid(jj, key));
                                                    assert(self.seg(l2, i2).seg_has(key));
                                                    assert(false);
                                                },
                                            }
                                        }
                                    }
                                },
                                None => {
                                    assert(false);
                                },
                            }
                        }
                    },
                    None => {
                        proof {
                            let li = l as int;
                            let ji = j as int;
                            lemma_seg_find_none(self.seg(li, ji), key);
                            match best {
                                None => {
                                    assert forall|l2: int, i2: int|
                                        self.scanned(li, ji, l2, i2) implies !(#[trigger] self.seg(
                                        l2,
                                        i2,
                                    )).seg_has(key) by {
                                        if l2 == li && i2 == ji {
                                            if self.seg(li, ji).seg_has(key) {
                                                let w = choose|w: int|
                                                    self.seg(li, ji).seg_valid(w, key);
                                                assert(self.seg(
                                                    li,
                                                    ji,
                                                ).spec_entries()[w].spec_key() == key);
                                                assert(false);
                                            }
                                        } else {
                                            assert(self.scanned(li, ji + 1, l2, i2));
                                        }
                                    }
                                },
                                Some(b2) => {
                                    assert(exists|l2: int, i2: int|
                                        self.scanned(li, ji, l2, i2) && (#[trigger] self.seg(
                                            l2,
                                            i2,
                                        )).seg_find(key) == Some(b2)) by {
                                        let (l3, i3) = choose|l3: int, i3: int|
                                            self.scanned(li, ji + 1, l3, i3) && (
                                            #[trigger] self.seg(l3, i3)).seg_find(key) == Some(b2);
                                        assert(self.scanned(li, ji, l3, i3));
                                    }
                                },
                            }
                        }
                    },
                }
            }
            l = l + 1;
        }
        proof {
            let nl = self.n_levels();
            match best {
                Some(b) => {
                    assert(b.spec_key() == key);
                    assert(self.comp_wins(b)) by {
                        let (l3, i3) = choose|l3: int, i3: int|
                            self.scanned(nl, 0, l3, i3) && (#[trigger] self.seg(l3, i3)).seg_find(
                                key,
                            ) == Some(b);
                        assert(self.valid_pos(l3, i3));
                        assert forall|l2: int, i2: int, jj: int|
                            self.valid_pos(l2, i2) && 0 <= jj < self.seg(
                                l2,
                                i2,
                            ).spec_entries().len() && (#[trigger] self.seg(
                                l2,
                                i2,
                            ).spec_entries()[jj]).spec_key() == b.spec_key() implies self.seg(
                            l2,
                            i2,
                        ).spec_entries()[jj].spec_rev() <= b.spec_rev() by {
                            assert(self.scanned(nl, 0, l2, i2));
                        }
                    }
                },
                None => {
                    if self.comp_has(key) {
                        let (l2, i2) = choose|l2: int, i2: int|
                            self.valid_pos(l2, i2) && (#[trigger] self.seg(l2, i2)).seg_has(key);
                        assert(self.scanned(nl, 0, l2, i2));
                        assert(false);
                    }
                },
            }
            match best {
                Some(b) => {
                    match b {
                        DisktableEntry::Insert { rev, key: k2, value } => {
                            assert(k2 == key);
                            assert(self.comp_wins(DisktableEntry::Insert { rev, key, value }));
                        },
                        DisktableEntry::Delete { rev, key: k2 } => {
                            assert(k2 == key);
                            assert(self.comp_wins(DisktableEntry::Delete { rev, key }));
                        },
                    }
                },
                None => {
                },
            }
        }
        match best {
            Some(DisktableEntry::Insert { rev: _, key: _, value }) => Some(value),
            _ => None,
        }
    }

    /// Sum of the byte footprints of all live segment files.
    pub fn on_disk_size(&self) -> (r: usize)
        requires
            self.wf_segs(),
            self.disk_bytes() <= usize::MAX,
        ensures
            r == self.disk_bytes(),
    {
        let mut total: usize = 0;
        let mut l: usize = 0;
        while l < self.levels.len()
            invariant
                self.wf_segs(),
                self.disk_bytes() <= usize::MAX,
                l <= self.n_levels(),
                total == levels_bytes(self.levels@.subrange(0, l as int)),
            decreases self.n_levels() - l,
        {
            let mut j: usize = 0;
            while j < self.levels[l].len()
                invariant
                    self.wf_segs(),
                    self.disk_bytes() <= usize::MAX,
                    (l as int) < self.n_levels(),
                    j <= self.level_len(l as int),
                    total == levels_bytes(self.levels@.subrange(0, l as int)) + level_bytes(
                        self.levels@[l as int]@.subrange(0, j as int),
                    ),
                decreases self.level_len(l as int) - j,
            {
                proof {
                    let li = l as int;
                    let ji = j as int;
                    lemma_level_bytes_prefix(self.levels@[li]@, ji);
                    lemma_level_bytes_bound(self.levels@[li]@, ji + 1);
                    lemma_levels_bytes_prefix(self.levels@, li);
                    lemma_levels_bytes_bound(self.levels@, li + 1);
                    lemma_levels_bytes_nonneg(self.levels@.subrange(0, li));
                    lemma_level_bytes_nonneg(self.levels@[li]@.subrange(0, ji));
                    assert(self.levels@[li]@[ji] == self.seg(li, ji));
                }
                let piece = self.levels[l][j].on_disk_size();
                total = total + piece;
                j = j + 1;
            }
            proof {
                let li = l as int;
                lemma_levels_bytes_prefix(self.levels@, li);
                assert(self.levels@[li]@.subrange(0, self.level_len(li)) =~= self.levels@[li]@);
            }
            l = l + 1;
        }
        proof {
            assert(self.levels@.subrange(0, self.n_levels()) =~= self.levels@);
        }
        total
    }
}

/// When no two live segments share a (key, revision) pair, the
/// authoritative record for a key is unique.
pub proof fn lemma_comp_winner_unique(
    c: TieredCompaction,
    e1: DisktableEntry,
    e2: DisktableEntry,
)
    requires
        c.wf_segs(),
        c.revs_distinct(),
        c.comp_wins(e1),
        c.comp_wins(e2),
        e1.spec_key() == e2.spec_key(),
    ensures
        e1 == e2,
{
    let (l1, i1) = choose|l: int, i: int|
        c.valid_pos(l, i) && (#[trigger] c.seg(l, i)).seg_find(e1.spec_key()) == Some(e1);
    let (l2, i2) = choose|l: int, i: int|
        c.valid_pos(l, i) && (#[trigger] c.seg(l, i)).seg_find(e2.spec_key()) == Some(e2);
    lemma_seg_find_some(c.seg(l1, i1), e1.spec_key(), e1);
    lemma_seg_find_some(c.seg(l2, i2), e2.spec_key(), e2);
    let j1 = choose|j: int|
        0 <= j < c.seg(l1, i1).spec_entries().len() && #[trigger] c.seg(l1, i1).spec_entries()[j]
            == e1 && c.seg(l1, i1).spec_entries()[j].spec_key() == e1.spec_key();
    let j2 = choose|j: int|
        0 <= j < c.seg(l2, i2).spec_entries().len() && #[trigger] c.seg(l2, i2).spec_entries()[j]
            == e2 && c.seg(l2, i2).spec_entries()[j].spec_key() == e2.spec_key();
    assert(e1.spec_rev() <= e2.spec_rev());
    assert(e2.spec_rev() <= e1.spec_rev());
    if l1 != l2 || i1 != i2 {
        assert(false);
    } else {
        assert(c.seg(l1, i1).seg_find(e1.spec_key()) == c.seg(l2, i2).seg_find(e2.spec_key()));
    }
}

/// A key whose most-recent-revision live record is a tombstone reads as
/// empty.
pub proof fn lemma_tombstone_reads_empty(c: TieredCompaction, key: u64, rv: u64, r: Option<u64>)
    requires
        c.wf_segs(),
        c.revs_distinct(),
        c.comp_wins(DisktableEntry::Delete { rev: rv, key }),
        c.get_ok(key, r),
    ensures
        r is None,
{
    match r {
        Some(v) => {
            let rv2 = choose|rv2: u64|
                #[trigger] c.comp_wins(DisktableEntry::Insert { rev: rv2, key, value: v });
            lemma_comp_winner_unique(
                c,
                DisktableEntry::Insert { rev: rv2, key, value: v },
                DisktableEntry::Delete { rev: rv, key },
            );
            assert(false);
        },
        None => {
        },
    }
}

} // verus!

verus! {

/// There are never negatively many live segments.
pub proof fn lemma_total_segs_nonneg(c: TieredCompaction)
    ensures
        c.total_segs() >= 0,
{
    lemma_seg_count_nonneg(c.levels@);
}

/// A freshly allocated file identity belongs to no live segment, and the
/// segments stay registered when the repository gains that identity.
pub proof fn lemma_fresh_id_for_add(
    c: TieredCompaction,
    r1: DisktableRepository,
    r2: DisktableRepository,
    fresh: u64,
)
    requires
        c.registered(r1),
        !r1.has_inode(fresh),
        forall|id: u64| id != fresh ==> r2.has_inode(id) == r1.has_inode(id),
        r2.has_inode(fresh),
    ensures
        c.registered(r2),
        c.id_free(fresh),
{
    assert forall|l: int, i: int| c.valid_pos(l, i) implies (#[trigger] c.seg(l, i)).spec_id()
        != fresh by {
        assert(r1.has_inode(c.seg(l, i).spec_id()));
    }
    assert forall|l: int, i: int| c.valid_pos(l, i) implies r2.has_inode(
        (#[trigger] c.seg(l, i)).spec_id(),
    ) by {
        assert(r1.has_inode(c.seg(l, i).spec_id()));
        assert(c.seg(l, i).spec_id() != fresh);
    }
}

} // verus!

verus! {

use crate::lsmt::copy_bytes;

/// `p` carries the filename and file content of the live segment at
/// position `(l, i)`.
pub open spec fn pair_is_segment(c: TieredCompaction, p: (Vec<u8>, Vec<u8>), l: int, i: int) -> bool {
    c.valid_pos(l, i) && p.0@ == c.seg(l, i).spec_name() && p.1@ == c.seg(l, i).file_image()
}

/// `p` carries the filename and file content of one of the live segments.
pub open spec fn pair_of_some_segment(c: TieredCompaction, p: (Vec<u8>, Vec<u8>)) -> bool {
    exists|l: int, i: int| pair_is_segment(c, p, l, i)
}

/// The live segment at `(l, i)` appears somewhere in the listing `r`.
pub open spec fn pos_listed(c: TieredCompaction, r: Seq<(Vec<u8>, Vec<u8>)>, l: int, i: int) -> bool {
    exists|m: int| 0 <= m < r.len() && pair_is_segment(c, r[m], l, i)
}

impl TieredCompaction {
    /// One `(filename, file content)` pair per live segment, for the program
    /// that mirrors segments to disk: every returned pair is a live segment,
    /// and every live segment is returned.
    pub fn segment_files(&self) -> (r: Vec<(Vec<u8>, Vec<u8>)>)
        requires
            self.wf_segs(),
        ensures
            forall|m: int| 0 <= m < r@.len() ==> pair_of_some_segment(*self, #[trigger] r@[m]),
            r@.len() == self.total_segs(),
            forall|l: int, i: int| self.valid_pos(l, i) ==> #[trigger] pos_listed(*self, r@, l, i),
    {
        let mut r: Vec<(Vec<u8>, Vec<u8>)> = Vec::new();
        let mut l: usize = 0;
        while l < self.levels.len()
            invariant
                self.wf_segs(),
                l <= self.n_levels(),
                r@.len() == seg_count(self.levels@.subrange(0, l as int)),
                forall|m: int|
                    0 <= m < r@.len() ==> pair_of_some_segment(*self, #[trigger] r@[m]),
                forall|l2: int, i2: int|
                    self.valid_pos(l2, i2) && l2 < l ==> #[trigger] pos_listed(*self, r@, l2, i2),
            decreases self.n_levels() - l,
        {
            let mut j: usize = 0;
            while j < self.levels[l].len()
                invariant
                    self.wf_segs(),
                    (l as int) < self.n_levels(),
                    j <= self.level_len(l as int),
                    r@.len() == seg_count(self.levels@.subrange(0, l as int)) + j,
                    forall|m: int|
                        0 <= m < r@.len() ==> pair_of_some_segment(*self, #[trigger] r@[m]),
                    forall|l2: int, i2: int|
                        self.valid_pos(l2, i2) && (l2 < l || (l2 == l && i2 < j))
                            ==> #[trigger] pos_listed(*self, r@, l2, i2),
                decreases self.level_len(l as int) - j,
            {
                proof {
                    assert(self.levels@[l as int]@[j as int] == self.seg(l as int, j as int));
                }
                let name = copy_bytes(self.levels[l][j].name());
                let content = copy_bytes(self.levels[l][j].content());
                let ghost r0 = r@;
                r.push((name, content));
                proof {
                    assert forall|m: int| 0 <= m < r@.len() implies pair_of_some_segment(
                        *self,
                        #[trigger] r@[m],
                    ) by {
                        if m < r0.len() {
                            assert(r@[m] == r0[m]);
                        } else {
                            assert(r@[m] == (name, content));
                            assert(pair_is_segment(*self, r@[m], l as int, j as int));
                        }
                    }
                    assert forall|l2: int, i2: int|
                        self.valid_pos(l2, i2) && (l2 < l as int || (l2 == l as int && i2 < j
                            + 1)) implies #[trigger] pos_listed(*self, r@, l2, i2) by {
                        if l2 < l as int || i2 < j as int {
                            assert(pos_listed(*self, r0, l2, i2));
                            let m = choose|m: int|
                                0 <= m < r0.len() && pair_is_segment(*self, r0[m], l2, i2);
                            assert(r@[m] == r0[m]);
                            assert(pair_is_segment(*self, r@[m], l2, i2));
                        } else {
                            let m = r@.len() - 1;
                            assert(pair_is_segment(*self, r@[m], l2, i2));
                        }
                    }
                }
                j = j + 1;
            }
            proof {
                lemma_seg_count_prefix(self.levels@, l as int);
            }
            l = l + 1;
        }
        proof {
            assert(self.levels@.subrange(0, self.n_levels()) =~= self.levels@);
        }
        r
    }
}

} // verus!

verus! {

/// Only a key some live segment holds can have an authoritative record.
pub proof fn lemma_comp_wins_implies_has(c: TieredCompaction, e: DisktableEntry)
    requires
        c.comp_wins(e),
    ensures
        c.comp_has(e.spec_key()),
{
    let (l, i) = choose|l: int, i: int|
        c.valid_pos(l, i) && (#[trigger] c.seg(l, i)).seg_find(e.spec_key()) == Some(e);
    assert(c.seg(l, i).seg_has(e.spec_key()));
}

} // verus!

verus! {

use crate::lsmt::{entry_in, lemma_seg_record_find, lemma_sorted_strict_distinct, wins};

impl TieredCompaction {
    /// `e` is a record of one of the live segments.
    pub closed spec fn record_in(self, e: DisktableEntry) -> bool {
        exists|l: int, i: int|
            self.valid_pos(l, i) && (#[trigger] self.seg(l, i)).seg_record(e)
    }
}

/// `e` is a live record whose revision is at least that of every live record
/// with the same key (the record-level formulation of `comp_wins`).
pub open spec fn rec_wins(c: TieredCompaction, e: DisktableEntry) -> bool {
    &&& c.record_in(e)
    &&& forall|e2: DisktableEntry|
        #[trigger] c.record_in(e2) && e2.spec_key() == e.spec_key() ==> e2.spec_rev()
            <= e.spec_rev()
}

/// `e` is a record of one of the listed segments.
pub open spec fn in_tables(ds: Seq<Disktable>, e: DisktableEntry) -> bool {
    exists|t: int| 0 <= t < ds.len() && (#[trigger] ds[t]).seg_record(e)
}

/// `e` is a record of the live segments or of the incoming segment `d`.
pub open spec fn joint_in(c: TieredCompaction, d: Disktable, e: DisktableEntry) -> bool {
    c.record_in(e) || d.seg_record(e)
}

/// `e` is the authoritative record for its key among the live segments plus
/// the incoming segment `d`.
pub open spec fn joint_wins(c: TieredCompaction, d: Disktable, e: DisktableEntry) -> bool {
    &&& joint_in(c, d, e)
    &&& forall|e2: DisktableEntry|
        #[trigger] joint_in(c, d, e2) && e2.spec_key() == e.spec_key() ==> e2.spec_rev()
            <= e.spec_rev()
}

/// The incoming segment's revisions collide with no live record of the same
/// key (a fresh flush revision guarantees this).
pub open spec fn fresh_revs(c: TieredCompaction, d: Disktable) -> bool {
    forall|e1: DisktableEntry, e2: DisktableEntry|
        #[trigger] c.record_in(e1) && #[trigger] d.seg_record(e2) && e1.spec_key()
            == e2.spec_key() ==> e1.spec_rev() != e2.spec_rev()
}

/// Every live record's revision is at most `r`.
pub open spec fn revs_below(c: TieredCompaction, r: u64) -> bool {
    forall|e: DisktableEntry| #[trigger] c.record_in(e) ==> e.spec_rev() <= r
}

/// Replacing some records by merge-kept records moves no key's
/// authoritative record, as long as the kept records dominate the consumed
/// ones revision-wise and ties are impossible.
proof fn lemma_winners_preserved(
    c0: TieredCompaction,
    c4: TieredCompaction,
    temp: Seq<Disktable>,
    m: Disktable,
)
    requires
        forall|e: DisktableEntry| #[trigger] c4.record_in(e) ==> c0.record_in(e),
        forall|e: DisktableEntry|
            #[trigger] c0.record_in(e) ==> c4.record_in(e) || in_tables(temp, e),
        forall|e: DisktableEntry| #[trigger] in_tables(temp, e) ==> c0.record_in(e),
        forall|e: DisktableEntry| #[trigger] m.seg_record(e) ==> c4.record_in(e),
        forall|e: DisktableEntry| #[trigger] m.seg_record(e) ==> in_tables(temp, e),
        forall|e: DisktableEntry| #[trigger] in_tables(temp, e) ==> exists|o: DisktableEntry|
            #[trigger] m.seg_record(o) && o.spec_key() == e.spec_key() && o.spec_rev()
                >= e.spec_rev(),
        forall|e1: DisktableEntry, e2: DisktableEntry|
            #[trigger] in_tables(temp, e1) && #[trigger] in_tables(temp, e2) && e1.spec_key()
                == e2.spec_key() && e1.spec_rev() == e2.spec_rev() ==> e1 == e2,
    ensures
        forall|e: DisktableEntry| #[trigger] rec_wins(c4, e) == rec_wins(c0, e),
{
    assert forall|e: DisktableEntry| #[trigger] rec_wins(c4, e) == rec_wins(c0, e) by {
        if rec_wins(c0, e) {
            if !c4.record_in(e) {
                assert(in_tables(temp, e));
                let o = choose|o: DisktableEntry|
                    #[trigger] m.seg_record(o) && o.spec_key() == e.spec_key() && o.spec_rev()
                        >= e.spec_rev();
                assert(in_tables(temp, o));
                assert(c0.record_in(o));
                assert(o.spec_rev() <= e.spec_rev());
                assert(o == e);
                assert(c4.record_in(e));
            }
            assert forall|e2: DisktableEntry|
                #[trigger] c4.record_in(e2) && e2.spec_key() == e.spec_key() implies e2.spec_rev()
                <= e.spec_rev() by {
                assert(c0.record_in(e2));
            }
            assert(rec_wins(c4, e));
        }
        if rec_wins(c4, e) {
            assert(c0.record_in(e));
            assert forall|e2: DisktableEntry|
                #[trigger] c0.record_in(e2) && e2.spec_key() == e.spec_key() implies e2.spec_rev()
                <= e.spec_rev() by {
                if !c4.record_in(e2) {
                    assert(in_tables(temp, e2));
                    let o = choose|o: DisktableEntry|
                        #[trigger] m.seg_record(o) && o.spec_key() == e2.spec_key() && o.spec_rev()
                            >= e2.spec_rev();
                    assert(c4.record_in(o));
                    assert(o.spec_rev() <= e.spec_rev());
                }
            }
            assert(rec_wins(c0, e));
        }
    }
}

/// `comp_wins` (position-level) and `rec_wins` (record-level) agree on
/// well-formed segments.
pub proof fn lemma_comp_wins_alt(c: TieredCompaction, e: DisktableEntry)
    requires
        c.wf_segs(),
    ensures
        c.comp_wins(e) == rec_wins(c, e),
{
    if c.comp_wins(e) {
        let (l, i) = choose|l: int, i: int|
            c.valid_pos(l, i) && (#[trigger] c.seg(l, i)).seg_find(e.spec_key()) == Some(e);
        lemma_seg_record_find(c.seg(l, i), e);
        assert(c.record_in(e));
        assert forall|e2: DisktableEntry|
            #[trigger] c.record_in(e2) && e2.spec_key() == e.spec_key() implies e2.spec_rev()
            <= e.spec_rev() by {
            let (l2, i2) = choose|l2: int, i2: int|
                c.valid_pos(l2, i2) && (#[trigger] c.seg(l2, i2)).seg_record(e2);
            let j2 = choose|j: int|
                0 <= j < c.seg(l2, i2).spec_entries().len() && #[trigger] c.seg(
                    l2,
                    i2,
                ).spec_entries()[j] == e2;
            assert(c.seg(l2, i2).spec_entries()[j2].spec_rev() <= e.spec_rev());
        }
    }
    if rec_wins(c, e) {
        let (l, i) = choose|l: int, i: int|
            c.valid_pos(l, i) && (#[trigger] c.seg(l, i)).seg_record(e);
        lemma_seg_record_find(c.seg(l, i), e);
        assert(c.seg(l, i).seg_find(e.spec_key()) == Some(e));
        assert forall|l2: int, i2: int, j2: int|
            c.valid_pos(l2, i2) && 0 <= j2 < c.seg(l2, i2).spec_entries().len() && (
            #[trigger] c.seg(l2, i2).spec_entries()[j2]).spec_key() == e.spec_key() implies c.seg(
            l2,
            i2,
        ).spec_entries()[j2].spec_rev() <= e.spec_rev() by {
            let e2 = c.seg(l2, i2).spec_entries()[j2];
            assert(c.seg(l2, i2).seg_record(e2));
            assert(c.record_in(e2));
        }
    }
}

} // verus!
