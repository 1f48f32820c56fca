//! The set-associative cache engine: lookup, LRU replacement, and the
//! per-record accounting of a simulation run.

use vstd::prelude::*;
use crate::address::Address;
use crate::model::{
    CacheModel, lemma_run_snoc, lemma_set_after_access_wf, lemma_set_pos_unique, set_after_access,
    set_has,
};
use crate::trace::{Operation, TraceEntry, Traces};

verus! {

/// One resident cache line: the tag of the block it holds and a validity
/// flag. Entries are created valid and never invalidated.
#[derive(Debug, Clone, Copy, PartialEq, Eq, Structural)]
pub struct CacheEntry {
    /// Whether the entry holds a block.
    pub valid: bool,
    /// The tag of the block held.
    pub tag: u64,
}

impl Default for CacheEntry {
    fn default() -> (r: Self)
        ensures
            r == (CacheEntry { valid: true, tag: 0u64 }),
    {
        CacheEntry { valid: true, tag: 0 }
    }
}

/// The result of one cache lookup.
#[derive(Debug, Clone, Copy, PartialEq, Eq, Structural)]
pub enum CacheAccessResult {
    /// Not resident; carries the set index the address maps to.
    Miss(usize),
    /// Resident; carries the set index and the position within the set.
    Hit(usize, usize),
}

/// The classification of one trace record. A modify record makes two
/// accesses, so its outcomes carry the forced second hit.
#[derive(Debug, Clone, Copy, PartialEq, Eq, Structural)]
pub enum RunTraceResult {
    /// An instruction fetch: no cache effect.
    Skip,
    /// A single access that hit.
    Hit,
    /// A single access that missed and filled a free slot.
    MissInsert,
    /// A single access that missed and evicted the least-recently-used
    /// entry.
    MissReplace,
    /// A modify whose first access missed and filled a free slot; the
    /// second access hit.
    MissInsertHit,
    /// A modify whose first access missed and evicted; the second access
    /// hit.
    MissReplaceHit,
    /// A modify whose accesses both hit.
    HitHit,
}

/// A set-associative cache: `2^index_bits` sets of up to `size.1`
/// entries each, every set ordered from least- to most-recently used.
pub struct Cache {
    /// The number of sets and the associativity.
    size: (usize, usize),
    /// The tag/index split of addresses.
    address: Address,
    /// The sets, indexed by the index field of the address.
    inner: Vec<Vec<CacheEntry>>,
}

impl View for Cache {
    type V = CacheModel;

    closed spec fn view(&self) -> CacheModel {
        CacheModel {
            sets: self.inner@.map_values(|s: Vec<CacheEntry>| s@),
            cfg: self.address,
            assoc: self.size.1,
        }
    }
}

impl Cache {
    /// The representation matches its abstraction: the bookkeeping count
    /// of sets agrees with the storage, and the abstract state is
    /// well-formed.
    pub closed spec fn inv(self) -> bool {
        &&& self@.wf()
        &&& self.size.0 == self.inner@.len()
    }

    /// Builds a cache of `2^index_bits` empty sets of `entry_num`
    /// entries each, with `tag_bits = 64 - index_bits - offset_bits`.
    pub fn init(index_bits: usize, entry_num: usize, offset_bits: usize) -> (r: Cache)
        requires
            index_bits + offset_bits <= 64,
            index_bits <= 30,
            entry_num >= 1,
        ensures
            r.inv(),
            r@.wf(),
            r@.cfg == (Address { tag_bits: (64 - index_bits - offset_bits) as usize, index_bits }),
            r@.assoc == entry_num,
            r@.sets.len() == (1u64 << (index_bits as u64)),
            forall|i: int| 0 <= i < r@.sets.len() ==> (#[trigger] r@.sets[i]).len() == 0,
    {
        let tag_bits = 64 - index_bits - offset_bits;
        let address = Address::new(tag_bits, index_bits);
        proof {
            assert((1usize << index_bits) == (1u64 << (index_bits as u64)) && (1usize
                << index_bits) >= 1) by (bit_vector)
                requires
                    index_bits <= 30,
            ;
        }
        let num_sets: usize = 1usize << index_bits;
        let mut inner: Vec<Vec<CacheEntry>> = Vec::new();
        while inner.len() < num_sets
            invariant
                inner@.len() <= num_sets,
                forall|i: int| 0 <= i < inner@.len() ==> (#[trigger] inner@[i])@.len() == 0,
            decreases num_sets - inner@.len(),
        {
            inner.push(Vec::new());
        }
        Cache { size: (num_sets, entry_num), address, inner }
    }

    /// Looks the address up: `Hit` with the set index and the position
    /// within the set when its tag is resident there, else `Miss` with
    /// the set index. The cache itself is unchanged.
    pub fn access(&self, address: u64) -> (r: CacheAccessResult)
        requires
            self.inv(),
        ensures
            ({
                let idx = self@.index_of(address);
                let t = self@.tag_of(address);
                match r {
                    CacheAccessResult::Hit(index, pos) => {
                        &&& index == idx
                        &&& set_has(self@.sets[idx], t)
                        &&& pos < self@.sets[idx].len()
                        &&& self@.sets[idx][pos as int].valid
                        &&& self@.sets[idx][pos as int].tag == t
                    },
                    CacheAccessResult::Miss(index) => {
                        &&& index == idx
                        &&& !set_has(self@.sets[idx], t)
                    },
                }
            }),
    {
        let tag = self.address.tag(address);
        let index_wide = self.address.index(address);
        proof {
            crate::model::lemma_index_in_range(self@, address);
        }
        let index = index_wide as usize;
        let set = &self.inner[index];
        let mut pos: usize = 0;
        while pos < set.len()
            invariant
                pos <= set@.len(),
                set@ == self@.sets[self@.index_of(address)],
                tag == self@.tag_of(address),
                index == self@.index_of(address),
                forall|j: int|
                    0 <= j < pos ==> !((#[trigger] set@[j]).valid && set@[j].tag == tag),
            decreases set@.len() - pos,
        {
            let entry = &set[pos];
            if entry.tag == tag && entry.valid {
                return CacheAccessResult::Hit(index, pos);
            }
            pos += 1;
        }
        CacheAccessResult::Miss(index)
    }

    /// Places a fresh entry in the given set: into a free slot when one
    /// is left, else in place of the least-recently-used head entry. The
    /// new entry becomes most-recently-used; returns whether an entry
    /// was evicted.
    pub fn insert_or_replace(&mut self, index: usize, entry: CacheEntry) -> (evicted: bool)
        requires
            old(self).inv(),
            index < old(self)@.sets.len(),
            entry.valid,
            !set_has(old(self)@.sets[index as int], entry.tag),
        ensures
            final(self).inv(),
            final(self)@.wf(),
            final(self)@.cfg == old(self)@.cfg,
            final(self)@.assoc == old(self)@.assoc,
            final(self)@.sets.len() == old(self)@.sets.len(),
            forall|j: int|
                0 <= j < old(self)@.sets.len() && j != index ==> final(self)@.sets[j] == old(
                    self,
                )@.sets[j],
            evicted == !(old(self)@.sets[index as int].len() < old(self)@.assoc),
            !evicted ==> final(self)@.sets[index as int] == old(self)@.sets[index as int].push(
                entry,
            ),
            evicted ==> final(self)@.sets[index as int] == old(self)@.sets[index as int].remove(
                0,
            ).push(entry),
    {
        let ghost m0 = self@;
        let evicted: bool;
        if self.inner[index].len() < self.size.1 {
            self.inner[index].push(entry);
            evicted = false;
        } else {
            self.inner[index].remove(0);
            self.inner[index].push(entry);
            evicted = true;
        }
        proof {
            assert(self@.sets =~= m0.sets.update(
                index as int,
                set_after_access(m0.sets[index as int], entry.tag, m0.assoc as int),
            ));
            lemma_set_after_access_wf(m0.sets[index as int], entry.tag, m0.assoc as int);
        }
        evicted
    }

    /// Moves the entry at `offset` of the given set to the
    /// most-recently-used tail; the recency order of a set is its only
    /// LRU bookkeeping.
    fn update(&mut self, index: usize, offset: usize)
        requires
            old(self).inv(),
            index < old(self)@.sets.len(),
            offset < old(self)@.sets[index as int].len(),
        ensures
            final(self)@.cfg == old(self)@.cfg,
            final(self)@.assoc == old(self)@.assoc,
            final(self)@.sets.len() == old(self)@.sets.len(),
            final(self).size == old(self).size,
            forall|j: int|
                0 <= j < old(self)@.sets.len() && j != index ==> final(self)@.sets[j] == old(
                    self,
                )@.sets[j],
            final(self)@.sets[index as int] == old(self)@.sets[index as int].remove(
                offset as int,
            ).push(old(self)@.sets[index as int][offset as int]),
    {
        let entry = self.inner[index].remove(offset);
        self.inner[index].push(entry);
    }

    /// Replays one trace record, updating the cache and classifying the
    /// record per the operation semantics: fetches are skipped, loads
    /// and stores make one access, a modify makes two accesses to the
    /// same address of which the second always hits.
    pub fn run_one_trace(&mut self, trace: TraceEntry) -> (r: RunTraceResult)
        requires
            old(self).inv(),
        ensures
            final(self).inv(),
            final(self)@.wf(),
            final(self)@ == old(self)@.step(trace),
            r == old(self)@.outcome(trace),
    {
        let ghost m0 = self@;
        match trace.operation {
            Operation::InstructionLoad => RunTraceResult::Skip,
            Operation::DataModify => {
                let address = trace.address;
                proof {
                    crate::model::lemma_index_in_range(m0, address);
                }
                match self.access(address) {
                    CacheAccessResult::Miss(index) => {
                        let entry = CacheEntry { valid: true, tag: self.address.tag(address) };
                        let evicted = self.insert_or_replace(index, entry);
                        proof {
                            self.lemma_matches_step(m0, trace);
                        }
                        if evicted {
                            RunTraceResult::MissReplaceHit
                        } else {
                            RunTraceResult::MissInsertHit
                        }
                    },
                    CacheAccessResult::Hit(index, offset) => {
                        proof {
                            lemma_set_pos_unique(
                                m0.sets[index as int],
                                m0.tag_of(address),
                                offset as int,
                                m0.assoc as int,
                            );
                        }
                        self.update(index, offset);
                        proof {
                            self.lemma_matches_step(m0, trace);
                        }
                        RunTraceResult::HitHit
                    },
                }
            },
            _ => {
                let address = trace.address;
                proof {
                    crate::model::lemma_index_in_range(m0, address);
                }
                match self.access(address) {
                    CacheAccessResult::Miss(index) => {
                        let entry = CacheEntry { valid: true, tag: self.address.tag(address) };
                        let evicted = self.insert_or_replace(index, entry);
                        proof {
                            self.lemma_matches_step(m0, trace);
                        }
                        if evicted {
                            RunTraceResult::MissReplace
                        } else {
                            RunTraceResult::MissInsert
                        }
                    },
                    CacheAccessResult::Hit(index, offset) => {
                        proof {
                            lemma_set_pos_unique(
                                m0.sets[index as int],
                                m0.tag_of(address),
                                offset as int,
                                m0.assoc as int,
                            );
                        }
                        self.update(index, offset);
                        proof {
                            self.lemma_matches_step(m0, trace);
                        }
                        RunTraceResult::Hit
                    },
                }
            },
        }
    }

    /// After the one access a data record makes, the state is the
    /// model's step for that record, and it is well-formed again.
    proof fn lemma_matches_step(&self, m0: CacheModel, trace: TraceEntry)
        requires
            m0.wf(),
            trace.operation != Operation::InstructionLoad,
            self@.cfg == m0.cfg,
            self@.assoc == m0.assoc,
            self@.sets.len() == m0.sets.len(),
            forall|j: int|
                0 <= j < m0.sets.len() && j != m0.index_of(trace.address) ==> self@.sets[j]
                    == m0.sets[j],
            self@.sets[m0.index_of(trace.address)] == set_after_access(
                m0.sets[m0.index_of(trace.address)],
                m0.tag_of(trace.address),
                m0.assoc as int,
            ),
        ensures
            self@ == m0.step(trace),
            self@.wf(),
    {
        crate::model::lemma_index_in_range(m0, trace.address);
        assert(self@.sets =~= m0.step(trace).sets);
        assert(self@ =~~= m0.step(trace));
        crate::model::lemma_step_wf(m0, trace);
    }

    /// Replays a whole trace in order and returns the accumulated
    /// (hits, misses, evictions) totals.
    pub fn run_traces(&mut self, traces: Traces) -> (r: (usize, usize, usize))
        requires
            old(self).inv(),
            2 * traces@.len() <= usize::MAX,
        ensures
            final(self).inv(),
            final(self)@.wf(),
            final(self)@ == old(self)@.run(traces@),
            r.0 == old(self)@.totals(traces@).0,
            r.1 == old(self)@.totals(traces@).1,
            r.2 == old(self)@.totals(traces@).2,
    {
        let mut hits: usize = 0;
        let mut misses: usize = 0;
        let mut evicts: usize = 0;
        let n = traces.len();
        let mut i: usize = 0;
        proof {
            assert(traces@.take(0) =~= Seq::<TraceEntry>::empty());
            assert(traces@.skip(0) =~= traces@);
            assert(old(self)@.run(Seq::<TraceEntry>::empty()) == old(self)@);
        }
        while i < n
            invariant
                self.inv(),
                n == traces@.len(),
                2 * traces@.len() <= usize::MAX,
                i <= n,
                self@ == old(self)@.run(traces@.take(i as int)),
                hits <= 2 * i,
                misses <= i,
                evicts <= i,
                ({
                    let full = old(self)@.totals(traces@);
                    let rem = self@.totals(traces@.skip(i as int));
                    &&& full.0 == hits + rem.0
                    &&& full.1 == misses + rem.1
                    &&& full.2 == evicts + rem.2
                }),
            decreases n - i,
        {
            let ghost m_before = self@;
            let ghost rest = traces@.skip(i as int);
            let record = traces.get(i);
            let outcome = self.run_one_trace(record);
            proof {
                assert(rest[0] == record);
                assert(rest.drop_first() =~= traces@.skip(i as int + 1));
                assert(traces@.take(i as int + 1) =~= traces@.take(i as int).push(record));
                lemma_run_snoc(old(self)@, traces@.take(i as int), record);
            }
            match outcome {
                RunTraceResult::Skip => {},
                RunTraceResult::Hit => {
                    hits += 1;
                },
                RunTraceResult::MissInsert => {
                    misses += 1;
                },
                RunTraceResult::MissReplace => {
                    misses += 1;
                    evicts += 1;
                },
                RunTraceResult::MissInsertHit => {
                    hits += 1;
                    misses += 1;
                },
                RunTraceResult::MissReplaceHit => {
                    hits += 1;
                    misses += 1;
                    evicts += 1;
                },
                RunTraceResult::HitHit => {
                    hits += 2;
                },
            }
            i += 1;
        }
        proof {
            assert(traces@.take(n as int) =~= traces@);
            assert(traces@.skip(n as int) =~= Seq::<TraceEntry>::empty());
        }
        (hits, misses, evicts)
    }
}

} // verus!
