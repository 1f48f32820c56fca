//! The mathematical model of the cache: each set is a sequence of entries
//! ordered from least- to most-recently used, and every operation of the
//! engine is mirrored by a spec-level transition on that state. The laws
//! of the LRU policy are proved here, over the model alone.

use vstd::prelude::*;
use crate::address::{Address, field_bits, lemma_field_bits_bound};
use crate::cache::{CacheEntry, RunTraceResult};
use crate::trace::{Operation, TraceEntry};

verus! {

/// A fresh entry for a block with the given tag.
pub open spec fn entry_of(tag: u64) -> CacheEntry {
    CacheEntry { valid: true, tag }
}

/// Whether the set holds a valid entry for this tag.
pub open spec fn set_has(s: Seq<CacheEntry>, tag: u64) -> bool {
    exists|i: int| 0 <= i < s.len() && (#[trigger] s[i]).valid && s[i].tag == tag
}

/// The position of the valid entry for this tag; unique in a well-formed
/// set.
pub open spec fn set_pos(s: Seq<CacheEntry>, tag: u64) -> int {
    choose|i: int| 0 <= i < s.len() && (#[trigger] s[i]).valid && s[i].tag == tag
}

/// A well-formed set: at most `assoc` entries, every entry valid, and no
/// tag held twice.
pub open spec fn set_wf(s: Seq<CacheEntry>, assoc: int) -> bool {
    &&& s.len() <= assoc
    &&& forall|i: int| 0 <= i < s.len() ==> (#[trigger] s[i]).valid
    &&& forall|i: int, j: int| 0 <= i < j < s.len() ==> s[i].tag != s[j].tag
}

/// The set after one access for `tag`: a hit moves the matching entry to
/// the most-recently-used tail; a miss appends a fresh entry, evicting
/// the least-recently-used head first when the set is full.
pub open spec fn set_after_access(s: Seq<CacheEntry>, tag: u64, assoc: int) -> Seq<CacheEntry> {
    if set_has(s, tag) {
        s.remove(set_pos(s, tag)).push(s[set_pos(s, tag)])
    } else if s.len() < assoc {
        s.push(entry_of(tag))
    } else {
        s.remove(0).push(entry_of(tag))
    }
}

/// Hit/miss classification of one access for `tag` against set `s`.
pub open spec fn set_outcome(s: Seq<CacheEntry>, tag: u64, assoc: int) -> RunTraceResult {
    if set_has(s, tag) {
        RunTraceResult::Hit
    } else if s.len() < assoc {
        RunTraceResult::MissInsert
    } else {
        RunTraceResult::MissReplace
    }
}

/// The abstract state of the whole cache: one recency-ordered set per
/// index, plus the address split and the associativity.
#[verifier::ext_equal]
pub struct CacheModel {
    /// The sets, each ordered from least- to most-recently used.
    pub sets: Seq<Seq<CacheEntry>>,
    /// The tag/index split of addresses.
    pub cfg: Address,
    /// The capacity of each set.
    pub assoc: usize,
}

impl CacheModel {
    pub open spec fn wf(self) -> bool {
        &&& self.cfg.wf()
        &&& self.cfg.index_bits < 64
        &&& self.assoc >= 1
        &&& self.sets.len() == (1u64 << (self.cfg.index_bits as u64))
        &&& forall|i: int|
            0 <= i < self.sets.len() ==> set_wf(#[trigger] self.sets[i], self.assoc as int)
    }

    /// The tag of an address under this geometry.
    pub open spec fn tag_of(self, address: u64) -> u64 {
        self.cfg.spec_tag(address)
    }

    /// The set index an address maps to.
    pub open spec fn index_of(self, address: u64) -> int {
        self.cfg.spec_index(address) as int
    }

    /// The state after one access for `address`: only the addressed set
    /// changes.
    pub open spec fn after_access(self, address: u64) -> CacheModel {
        CacheModel {
            sets: self.sets.update(
                self.index_of(address),
                set_after_access(
                    self.sets[self.index_of(address)],
                    self.tag_of(address),
                    self.assoc as int,
                ),
            ),
            ..self
        }
    }

    /// The state after one trace record: instruction fetches change
    /// nothing; every data operation makes one access (the second access
    /// of a modify touches the entry the first access just made
    /// most-recently-used, which moves nothing).
    pub open spec fn step(self, record: TraceEntry) -> CacheModel {
        match record.operation {
            Operation::InstructionLoad => self,
            _ => self.after_access(record.address),
        }
    }

    /// The classification of one trace record: fetches are skipped,
    /// loads and stores classify as their single access does, and a
    /// modify adds the forced hit of its second access.
    pub open spec fn outcome(self, record: TraceEntry) -> RunTraceResult {
        match record.operation {
            Operation::InstructionLoad => RunTraceResult::Skip,
            Operation::DataModify => match self.single_outcome(record.address) {
                RunTraceResult::Hit => RunTraceResult::HitHit,
                RunTraceResult::MissInsert => RunTraceResult::MissInsertHit,
                _ => RunTraceResult::MissReplaceHit,
            },
            _ => self.single_outcome(record.address),
        }
    }

    /// Hit/miss classification of a single access for `address`.
    pub open spec fn single_outcome(self, address: u64) -> RunTraceResult {
        set_outcome(self.sets[self.index_of(address)], self.tag_of(address), self.assoc as int)
    }

    /// The state after a whole trace, applied left to right.
    pub open spec fn run(self, records: Seq<TraceEntry>) -> CacheModel
        decreases records.len(),
    {
        if records.len() == 0 {
            self
        } else {
            self.step(records[0]).run(records.drop_first())
        }
    }

    /// The (hits, misses, evictions) totals of a whole trace.
    pub open spec fn totals(self, records: Seq<TraceEntry>) -> (int, int, int)
        decreases records.len(),
    {
        if records.len() == 0 {
            (0int, 0int, 0int)
        } else {
            let c = counts_of(self.outcome(records[0]));
            let rest = self.step(records[0]).totals(records.drop_first());
            (c.0 + rest.0, c.1 + rest.1, c.2 + rest.2)
        }
    }
}

/// One access keeps a set well-formed, never grows it past the
/// associativity, and leaves the accessed tag resident.
pub proof fn lemma_set_after_access_wf(s: Seq<CacheEntry>, tag: u64, assoc: int)
    requires
        set_wf(s, assoc),
        assoc >= 1,
    ensures
        set_wf(set_after_access(s, tag, assoc), assoc),
        set_has(set_after_access(s, tag, assoc), tag),
{
    let t = set_after_access(s, tag, assoc);
    if set_has(s, tag) {
        let p = set_pos(s, tag);
        assert(0 <= p < s.len() && s[p].valid && s[p].tag == tag);
        s.remove_ensures(p);
        let r = s.remove(p);
        assert(t == r.push(s[p]));
        assert(t.len() == s.len());
        assert forall|i: int| 0 <= i < t.len() implies (#[trigger] t[i]).valid by {
            if i < s.len() - 1 {
                assert(t[i] == r[i]);
            } else {
                assert(t[i] == s[p]);
            }
        }
        assert forall|i: int, j: int| 0 <= i < j < t.len() implies t[i].tag != t[j].tag by {
            let oi = if i < p { i } else { i + 1 };
            if j < t.len() - 1 {
                let oj = if j < p { j } else { j + 1 };
                assert(t[i] == s[oi] && t[j] == s[oj]);
                assert(oi < oj);
            } else {
                assert(t[i] == s[oi]);
                assert(t[j] == s[p]);
                assert(oi != p);
            }
        }
        assert(t[t.len() - 1] == s[p]);
    } else if s.len() < assoc {
        assert(t == s.push(entry_of(tag)));
        assert forall|i: int, j: int| 0 <= i < j < t.len() implies t[i].tag != t[j].tag by {
            if j == t.len() - 1 {
                assert(t[i] == s[i]);
                if s[i].tag == tag {
                    assert(0 <= i < s.len() && s[i].valid && s[i].tag == tag);
                    assert(set_has(s, tag));
                }
            }
        }
        assert(t[t.len() - 1] == entry_of(tag));
    } else {
        assert(s.len() == assoc && s.len() >= 1);
        s.remove_ensures(0);
        let r = s.remove(0);
        assert(t == r.push(entry_of(tag)));
        assert forall|i: int| 0 <= i < t.len() implies (#[trigger] t[i]).valid by {
            if i < t.len() - 1 {
                assert(t[i] == s[i + 1]);
            }
        }
        assert forall|i: int, j: int| 0 <= i < j < t.len() implies t[i].tag != t[j].tag by {
            assert(t[i] == s[i + 1]);
            if j < t.len() - 1 {
                assert(t[j] == s[j + 1]);
            } else {
                assert(t[j] == entry_of(tag));
                if s[i + 1].tag == tag {
                    assert(0 <= i + 1 < s.len() && s[i + 1].valid && s[i + 1].tag == tag);
                    assert(set_has(s, tag));
                }
            }
        }
        assert(t[t.len() - 1] == entry_of(tag));
    }
}

/// One record keeps the whole cache well-formed and leaves the geometry
/// untouched.
pub proof fn lemma_step_wf(m: CacheModel, record: TraceEntry)
    requires
        m.wf(),
    ensures
        m.step(record).wf(),
        m.step(record).cfg == m.cfg,
        m.step(record).assoc == m.assoc,
        m.step(record).sets.len() == m.sets.len(),
{
    if record.operation != Operation::InstructionLoad {
        lemma_index_in_range(m, record.address);
        let idx = m.index_of(record.address);
        lemma_set_after_access_wf(m.sets[idx], m.tag_of(record.address), m.assoc as int);
    }
}

/// Every address maps to a set that exists.
pub proof fn lemma_index_in_range(m: CacheModel, address: u64)
    requires
        m.wf(),
    ensures
        0 <= m.index_of(address) < m.sets.len(),
{
    lemma_field_bits_bound(
        address,
        ((64 - m.cfg.tag_bits) - m.cfg.index_bits) as u64,
        m.cfg.index_bits as u64,
    );
}

/// Law: over any trace, the cache stays well-formed and its geometry
/// never changes; in particular no set ever holds more than `assoc`
/// entries.
pub proof fn lemma_run_wf(m: CacheModel, records: Seq<TraceEntry>)
    requires
        m.wf(),
    ensures
        m.run(records).wf(),
        m.run(records).cfg == m.cfg,
        m.run(records).assoc == m.assoc,
        m.run(records).sets.len() == m.sets.len(),
        forall|i: int|
            0 <= i < m.run(records).sets.len() ==> #[trigger] m.run(
                records,
            ).sets[i].len() <= m.assoc,
    decreases records.len(),
{
    if records.len() != 0 {
        lemma_step_wf(m, records[0]);
        lemma_run_wf(m.step(records[0]), records.drop_first());
    }
}

/// Law: a data access leaves its block resident, so re-accessing the
/// same address immediately afterwards (with no access in between)
/// always hits — as the single access of a load or store, or as both
/// accesses of a modify.
pub proof fn lemma_immediate_reaccess_hits(m: CacheModel, first: TraceEntry, second: TraceEntry)
    requires
        m.wf(),
        first.operation != Operation::InstructionLoad,
        second.address == first.address,
    ensures
        set_has(m.step(first).sets[m.index_of(first.address)], m.tag_of(first.address)),
        m.step(first).outcome(second) == match second.operation {
            Operation::InstructionLoad => RunTraceResult::Skip,
            Operation::DataModify => RunTraceResult::HitHit,
            _ => RunTraceResult::Hit,
        },
{
    lemma_index_in_range(m, first.address);
    let idx = m.index_of(first.address);
    lemma_set_after_access_wf(m.sets[idx], m.tag_of(first.address), m.assoc as int);
    assert(m.step(first).sets[idx] == set_after_access(
        m.sets[idx],
        m.tag_of(first.address),
        m.assoc as int,
    ));
}

/// In a well-formed set a tag sits at one position only.
pub proof fn lemma_set_pos_unique(s: Seq<CacheEntry>, tag: u64, i: int, assoc: int)
    requires
        set_wf(s, assoc),
        0 <= i < s.len(),
        s[i].valid,
        s[i].tag == tag,
    ensures
        set_has(s, tag),
        set_pos(s, tag) == i,
{
    assert(set_has(s, tag));
    let p = set_pos(s, tag);
    assert(0 <= p < s.len() && s[p].valid && s[p].tag == tag);
    if p < i {
        assert(s[p].tag != s[i].tag);
    } else if i < p {
        assert(s[i].tag != s[p].tag);
    }
}

/// Accessing a tag leaves it most-recently-used, and touching the
/// most-recently-used entry moves nothing: a second access for the same
/// tag, made at once, changes the set no further. This is why a modify
/// record — two accesses to one address back to back — is a single
/// state change whose second access is a guaranteed hit.
pub proof fn lemma_reaccess_changes_nothing(s: Seq<CacheEntry>, tag: u64, assoc: int)
    requires
        set_wf(s, assoc),
        assoc >= 1,
    ensures
        set_after_access(set_after_access(s, tag, assoc), tag, assoc) == set_after_access(
            s,
            tag,
            assoc,
        ),
{
    let s1 = set_after_access(s, tag, assoc);
    lemma_set_after_access_wf(s, tag, assoc);
    if set_has(s, tag) {
        let p = set_pos(s, tag);
        assert(0 <= p < s.len() && s[p].valid && s[p].tag == tag);
        s.remove_ensures(p);
        assert(s1.last() == s[p]);
    } else if s.len() < assoc {
        assert(s1.last() == entry_of(tag));
    } else {
        s.remove_ensures(0);
        assert(s1.last() == entry_of(tag));
    }
    lemma_set_pos_unique(s1, tag, s1.len() - 1, assoc);
    let q = set_pos(s1, tag);
    s1.remove_ensures(q);
    assert(s1.remove(q).push(s1[q]) =~= s1);
}

/// Unfolding a run from the back: one more record after a run is one
/// step against the state the run reached.
pub proof fn lemma_run_snoc(m: CacheModel, records: Seq<TraceEntry>, r: TraceEntry)
    ensures
        m.run(records.push(r)) == m.run(records).step(r),
    decreases records.len(),
{
    let pushed = records.push(r);
    if records.len() == 0 {
        assert(pushed[0] == r);
        assert(m.run(pushed) == m.step(r).run(pushed.drop_first()));
        assert(pushed.drop_first() =~= Seq::<TraceEntry>::empty());
        assert(m.step(r).run(Seq::<TraceEntry>::empty()) == m.step(r));
        assert(m.run(records) == m);
    } else {
        assert(pushed[0] == records[0]);
        let m1 = m.step(records[0]);
        assert(m.run(pushed) == m1.run(pushed.drop_first()));
        assert(pushed.drop_first() =~= records.drop_first().push(r));
        lemma_run_snoc(m1, records.drop_first(), r);
        assert(m.run(records) == m1.run(records.drop_first()));
    }
}

/// One set after a whole sequence of accesses, one per tag, in order.
pub open spec fn fill_set(s: Seq<CacheEntry>, tags: Seq<u64>, assoc: int) -> Seq<CacheEntry>
    decreases tags.len(),
{
    if tags.len() == 0 {
        s
    } else {
        fill_set(set_after_access(s, tags[0], assoc), tags.drop_first(), assoc)
    }
}

/// Unfolding a fill from the back: accessing one more tag after a fill
/// is one access against the filled set.
pub proof fn lemma_fill_snoc(s: Seq<CacheEntry>, tags: Seq<u64>, t: u64, assoc: int)
    ensures
        fill_set(s, tags.push(t), assoc) == set_after_access(fill_set(s, tags, assoc), t, assoc),
    decreases tags.len(),
{
    let pushed = tags.push(t);
    if tags.len() == 0 {
        assert(pushed[0] == t);
        assert(fill_set(s, pushed, assoc) == fill_set(
            set_after_access(s, t, assoc),
            pushed.drop_first(),
            assoc,
        ));
        assert(pushed.drop_first() =~= Seq::<u64>::empty());
        assert(fill_set(set_after_access(s, t, assoc), Seq::<u64>::empty(), assoc)
            == set_after_access(s, t, assoc));
        assert(fill_set(s, tags, assoc) == s);
    } else {
        assert(pushed[0] == tags[0]);
        let s1 = set_after_access(s, tags[0], assoc);
        assert(fill_set(s, pushed, assoc) == fill_set(s1, pushed.drop_first(), assoc));
        assert(pushed.drop_first() =~= tags.drop_first().push(t));
        lemma_fill_snoc(s1, tags.drop_first(), t, assoc);
        assert(fill_set(s, tags, assoc) == fill_set(s1, tags.drop_first(), assoc));
    }
}

/// Distinct tags, none resident yet, that all fit: they fill the set in
/// access order, without a single hit or eviction.
pub proof fn lemma_fill_fresh(s: Seq<CacheEntry>, tags: Seq<u64>, assoc: int)
    requires
        set_wf(s, assoc),
        s.len() + tags.len() <= assoc,
        tags.no_duplicates(),
        forall|k: int| 0 <= k < tags.len() ==> !set_has(s, #[trigger] tags[k]),
    ensures
        fill_set(s, tags, assoc) == s + tags.map_values(|t: u64| entry_of(t)),
    decreases tags.len(),
{
    let f = |t: u64| entry_of(t);
    if tags.len() == 0 {
        assert(s + tags.map_values(f) =~= s);
    } else {
        let t0 = tags[0];
        assert(!set_has(s, t0));
        let s1 = s.push(entry_of(t0));
        assert(set_after_access(s, t0, assoc) == s1);
        lemma_set_after_access_wf(s, t0, assoc);
        let rest = tags.drop_first();
        assert forall|k: int| 0 <= k < rest.len() implies !set_has(s1, #[trigger] rest[k]) by {
            assert(rest[k] == tags[k + 1]);
            assert(!set_has(s, tags[k + 1]));
            if set_has(s1, tags[k + 1]) {
                let i = choose|i: int|
                    0 <= i < s1.len() && (#[trigger] s1[i]).valid && s1[i].tag == tags[k + 1];
                if i < s.len() {
                    assert(s[i] == s1[i]);
                    assert(set_has(s, tags[k + 1]));
                } else {
                    assert(s1[i] == entry_of(t0));
                }
            }
        }
        lemma_fill_fresh(s1, rest, assoc);
        assert(s1 + rest.map_values(f) =~= s + tags.map_values(f));
    }
}

/// Law: with associativity `E`, a sequence of `E + 1` pairwise-distinct
/// tags accessed against one initially empty set never hits; each of the
/// first `E` accesses misses and fills a free slot, the last misses and
/// evicts, and the entry evicted is the first tag inserted — with no
/// re-access, LRU order is insertion order. Afterwards the first tag is
/// gone and every later one is resident.
pub proof fn lemma_distinct_fill_evicts_first(tags: Seq<u64>, assoc: int)
    requires
        assoc >= 1,
        tags.len() == assoc + 1,
        tags.no_duplicates(),
    ensures
        forall|k: int|
            0 <= k < assoc ==> set_outcome(
                #[trigger] fill_set(Seq::empty(), tags.take(k), assoc),
                tags[k],
                assoc,
            ) == RunTraceResult::MissInsert,
        set_outcome(fill_set(Seq::empty(), tags.take(assoc), assoc), tags[assoc], assoc)
            == RunTraceResult::MissReplace,
        fill_set(Seq::empty(), tags.take(assoc), assoc)[0] == entry_of(tags[0]),
        fill_set(Seq::empty(), tags, assoc) == fill_set(Seq::empty(), tags.take(assoc), assoc)
            .remove(0).push(entry_of(tags[assoc])),
        !set_has(fill_set(Seq::empty(), tags, assoc), tags[0]),
        forall|k: int|
            1 <= k <= assoc ==> set_has(fill_set(Seq::empty(), tags, assoc), #[trigger] tags[k]),
{
    let f = |t: u64| entry_of(t);
    let empty = Seq::<CacheEntry>::empty();
    assert forall|k: int| 0 <= k <= assoc implies #[trigger] fill_set(empty, tags.take(k), assoc)
        == tags.take(k).map_values(f) by {
        let pre = tags.take(k);
        assert(pre.no_duplicates());
        assert forall|j: int| 0 <= j < pre.len() implies !set_has(empty, #[trigger] pre[j]) by {}
        lemma_fill_fresh(empty, pre, assoc);
        assert(empty + pre.map_values(f) =~= pre.map_values(f));
    }
    assert forall|k: int|
        0 <= k <= assoc implies !set_has(fill_set(empty, tags.take(k), assoc), tags[k]) by {
        let fk = fill_set(empty, tags.take(k), assoc);
        if set_has(fk, tags[k]) {
            let i = choose|i: int|
                0 <= i < fk.len() && (#[trigger] fk[i]).valid && fk[i].tag == tags[k];
            assert(fk[i] == entry_of(tags.take(k)[i]));
            assert(tags[i] == tags[k] && i != k);
        }
    }
    let s_full = fill_set(empty, tags.take(assoc), assoc);
    assert(s_full.len() == assoc);
    assert(s_full[0] == entry_of(tags.take(assoc)[0]));
    assert(tags.take(assoc + 1) =~= tags.take(assoc).push(tags[assoc]));
    assert(tags.take(assoc + 1) =~= tags);
    lemma_fill_snoc(empty, tags.take(assoc), tags[assoc], assoc);
    assert(fill_set(empty, tags, assoc) == set_after_access(s_full, tags[assoc], assoc));
    s_full.remove_ensures(0);
    let s_after = s_full.remove(0).push(entry_of(tags[assoc]));
    assert(fill_set(empty, tags, assoc) == s_after);
    assert forall|i: int| 0 <= i < s_after.len() implies s_after[i].tag != tags[0] by {
        if i < s_after.len() - 1 {
            assert(s_after[i] == s_full[i + 1]);
            assert(s_full[i + 1] == entry_of(tags.take(assoc)[i + 1]));
            assert(tags[i + 1] != tags[0]);
        } else {
            assert(s_after[i] == entry_of(tags[assoc]));
            assert(tags[assoc] != tags[0]);
        }
    }
    assert(!set_has(s_after, tags[0]));
    assert forall|k: int| 1 <= k <= assoc implies set_has(s_after, #[trigger] tags[k]) by {
        if k < assoc {
            assert(s_after[k - 1] == s_full[k]);
            assert(s_full[k] == entry_of(tags.take(assoc)[k]));
            assert(s_after[k - 1].valid && s_after[k - 1].tag == tags[k]);
        } else {
            assert(s_after[assoc - 1] == entry_of(tags[assoc]));
            assert(s_after[assoc - 1].valid && s_after[assoc - 1].tag == tags[k]);
        }
    }
}

/// Law: re-accessing an entry promotes it to most-recently-used. In a
/// full set, after a hit on resident tag `x`, an access for a fresh tag
/// `d` evicts the then least-recently-used entry — some other tag, never
/// `x` — and `x` stays resident.
pub proof fn lemma_touch_protects(s: Seq<CacheEntry>, x: u64, d: u64, assoc: int)
    requires
        set_wf(s, assoc),
        s.len() == assoc,
        assoc >= 2,
        set_has(s, x),
        !set_has(s, d),
    ensures
        set_outcome(s, x, assoc) == RunTraceResult::Hit,
        ({
            let touched = set_after_access(s, x, assoc);
            &&& set_outcome(touched, d, assoc) == RunTraceResult::MissReplace
            &&& touched[0].tag != x
            &&& set_has(set_after_access(touched, d, assoc), x)
            &&& !set_has(set_after_access(touched, d, assoc), touched[0].tag)
        }),
{
    let p = set_pos(s, x);
    assert(0 <= p < s.len() && s[p].valid && s[p].tag == x);
    lemma_set_after_access_wf(s, x, assoc);
    s.remove_ensures(p);
    let touched = set_after_access(s, x, assoc);
    assert(touched == s.remove(p).push(s[p]));
    assert(touched.len() == assoc);
    // the head of the touched set is an old entry other than x's
    let oh = if 0 < p {
        0int
    } else {
        1int
    };
    assert(touched[0] == s[oh] && oh != p);
    assert(touched[0].tag != x);
    // d is still fresh after the touch
    assert forall|i: int| 0 <= i < touched.len() implies touched[i].tag != d by {
        let oi = if i < p {
            i
        } else if i < touched.len() - 1 {
            i + 1
        } else {
            p
        };
        assert(touched[i] == s[oi]);
        if s[oi].tag == d {
            assert(set_has(s, d));
        }
    }
    assert(!set_has(touched, d));
    // the miss for d evicts the head of the touched set
    lemma_set_after_access_wf(touched, d, assoc);
    touched.remove_ensures(0);
    let after = set_after_access(touched, d, assoc);
    assert(after == touched.remove(0).push(entry_of(d)));
    // x moved to the tail when touched, so it survives the eviction
    assert(touched[touched.len() - 1] == s[p]);
    assert(after[touched.len() - 2] == touched[touched.len() - 1]);
    assert(after[touched.len() - 2].valid && after[touched.len() - 2].tag == x);
    assert(set_has(after, x));
    // the evicted tag is gone: it was unique, and d differs from it
    assert forall|i: int| 0 <= i < after.len() implies after[i].tag != touched[0].tag by {
        if i < after.len() - 1 {
            assert(after[i] == touched[i + 1]);
        } else {
            assert(after[i] == entry_of(d));
            assert(touched[0] == s[oh]);
            if s[oh].tag == d {
                assert(set_has(s, d));
            }
        }
    }
    assert(!set_has(after, touched[0].tag));
}

/// An instruction fetch, or a record whose address maps to some other
/// set, leaves a set exactly as it was — so residency in one set can
/// only be disturbed by a data access to that same set.
pub proof fn lemma_other_set_untouched(m: CacheModel, record: TraceEntry, i: int)
    requires
        m.wf(),
        0 <= i < m.sets.len(),
        record.operation == Operation::InstructionLoad || m.index_of(record.address) != i,
    ensures
        m.step(record).sets[i] == m.sets[i],
{
    if record.operation != Operation::InstructionLoad {
        lemma_index_in_range(m, record.address);
    }
}

/// The (hits, misses, evictions) contribution of one record's outcome.
pub open spec fn counts_of(o: RunTraceResult) -> (int, int, int) {
    match o {
        RunTraceResult::Skip => (0int, 0int, 0int),
        RunTraceResult::Hit => (1int, 0int, 0int),
        RunTraceResult::MissInsert => (0int, 1int, 0int),
        RunTraceResult::MissReplace => (0int, 1int, 1int),
        RunTraceResult::MissInsertHit => (1int, 1int, 0int),
        RunTraceResult::MissReplaceHit => (1int, 1int, 1int),
        RunTraceResult::HitHit => (2int, 0int, 0int),
    }
}

} // verus!
