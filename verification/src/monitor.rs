//! The usage registry: VM name to PID and vCPU count, and a bounded per-PID
//! history of utilization samples fed by periodic counter sampling.
//!
//! Per PID the registry keeps the last observed (counter, timestamp) pair.
//! When a later observation arrives after a strictly positive elapsed time,
//! the rate `(counter - last) / elapsed` is appended to that PID's history,
//! with a counter decrease (PID reuse) clamped to a zero delta, never
//! negative.  Each history holds at most `MAX_HISTORY` samples; the oldest is
//! evicted first.  The sampling loop that discovers processes and reads
//! counters runs outside; it hands each observation to `run_cycle` or
//! `observe_process`, and readers query by VM name.

use vstd::prelude::*;

use std::collections::HashMap;

use crate::rational::Rat;
use crate::text::bytes_eq;

verus! {

broadcast use vstd::std_specs::hash::group_hash_axioms;

/// Capacity of one PID's usage history.
pub const MAX_HISTORY: usize = 10;

/// What one sampling cycle learned about one process: identity extracted
/// from its invocation arguments, and the CPU-time counter if its status
/// record could be read.
pub struct DiscoveredProcess {
    pub vm_name: Vec<u8>,
    pub pid: u32,
    pub vcpu_count: u32,
    pub cpu_time: Option<u64>,
}

impl View for DiscoveredProcess {
    type V = (Seq<u8>, u32, u32, Option<u64>);

    open spec fn view(&self) -> (Seq<u8>, u32, u32, Option<u64>) {
        (self.vm_name@, self.pid, self.vcpu_count, self.cpu_time)
    }
}

/// A VM-name entry: the most recently discovered PID and vCPU count.
struct VmEntry {
    name: Vec<u8>,
    pid: u32,
    vcpu_count: u32,
}

/// The registry.  The abstract state is three components: the name entries
/// (`entries`), the per-PID histories (`hist`, samples as numerator and
/// denominator pairs), and the per-PID last observations (`last_seen`).
pub struct CpuUsageTracker {
    history: HashMap<u32, Vec<Rat>>,
    vm_entries: Vec<VmEntry>,
    last_times: HashMap<u32, (u64, u64)>,
}

/// The registry's abstract state: name entries, histories, last observations.
pub type TrackerState = (Seq<(Seq<u8>, u32, u32)>, Map<u32, Seq<(int, int)>>, Map<
    u32,
    (u64, u64),
>);

/// Index of the first entry named `name` at or after `i`, or `entries.len()`.
pub open spec fn find_entry(entries: Seq<(Seq<u8>, u32, u32)>, name: Seq<u8>, i: int) -> int
    decreases entries.len() - i,
{
    if i < 0 || i >= entries.len() {
        entries.len() as int
    } else if entries[i].0 == name {
        i
    } else {
        find_entry(entries, name, i + 1)
    }
}

/// Overwrite the entry named `name`, or append one.
pub open spec fn record_entry(
    entries: Seq<(Seq<u8>, u32, u32)>,
    name: Seq<u8>,
    pid: u32,
    vcpu_count: u32,
) -> Seq<(Seq<u8>, u32, u32)> {
    let i = find_entry(entries, name, 0);
    if i < entries.len() {
        entries.update(i, (name, pid, vcpu_count))
    } else {
        entries.push((name, pid, vcpu_count))
    }
}

/// The sample a new observation appends, if any: `None` when the PID was
/// never seen, when no time elapsed (or time went backwards), or when a
/// component would not fit i64.
pub open spec fn sample_appended(last: Option<(u64, u64)>, counter: u64, now: u64) -> Option<
    (int, int),
> {
    match last {
        Option::None => Option::None,
        Option::Some(lp) => {
            let delta = if counter >= lp.0 {
                counter - lp.0
            } else {
                0int
            };
            let elapsed = now - lp.1;
            if elapsed > 0 && delta <= i64::MAX && elapsed <= i64::MAX {
                Option::Some((delta, elapsed))
            } else {
                Option::None
            }
        },
    }
}

/// Append a sample, evicting the oldest when the history is full.
pub open spec fn push_evict(h: Seq<(int, int)>, s: (int, int)) -> Seq<(int, int)> {
    if h.len() < MAX_HISTORY {
        h.push(s)
    } else {
        h.push(s).skip(1)
    }
}

/// A history within capacity whose samples are non-negative rates.
pub open spec fn valid_history(h: Seq<(int, int)>) -> bool {
    &&& h.len() <= MAX_HISTORY
    &&& forall|j: int| 0 <= j < h.len() ==> (#[trigger] h[j]).0 >= 0 && h[j].1 > 0
}

/// The abstract state after recording one discovered process at time `now`.
pub open spec fn observe_step(st: TrackerState, rec: (Seq<u8>, u32, u32, Option<u64>), now: u64)
    -> TrackerState {
    let entries = record_entry(st.0, rec.0, rec.1, rec.2);
    match rec.3 {
        Option::None => (entries, st.1, st.2),
        Option::Some(ct) => {
            let last = if st.2.contains_key(rec.1) {
                Option::Some(st.2[rec.1])
            } else {
                Option::None
            };
            let hist = match sample_appended(last, ct, now) {
                Option::Some(s) => st.1.insert(
                    rec.1,
                    push_evict(
                        if st.1.contains_key(rec.1) {
                            st.1[rec.1]
                        } else {
                            Seq::empty()
                        },
                        s,
                    ),
                ),
                Option::None => st.1,
            };
            (entries, hist, st.2.insert(rec.1, (ct, now)))
        },
    }
}

/// The abstract state after recording a whole cycle's discoveries in order.
pub open spec fn observe_cycle(
    st: TrackerState,
    recs: Seq<(Seq<u8>, u32, u32, Option<u64>)>,
    now: u64,
) -> TrackerState
    decreases recs.len(),
{
    if recs.len() == 0 {
        st
    } else {
        observe_cycle(observe_step(st, recs[0], now), recs.skip(1), now)
    }
}

impl CpuUsageTracker {
    /// Per-PID histories, as sequences of numerator and denominator pairs.
    pub closed spec fn hist(self) -> Map<u32, Seq<(int, int)>> {
        self.history@.map_values(|v: Vec<Rat>| v@.map_values(|r: Rat| r@))
    }

    /// Name entries, most recent discovery per VM name.
    pub closed spec fn entries(self) -> Seq<(Seq<u8>, u32, u32)> {
        self.vm_entries@.map_values(|e: VmEntry| (e.name@, e.pid, e.vcpu_count))
    }

    /// Per-PID last observed (counter, timestamp).
    pub closed spec fn last_seen(self) -> Map<u32, (u64, u64)> {
        self.last_times@
    }

    /// The three abstract components together.
    pub open spec fn state(self) -> TrackerState {
        (self.entries(), self.hist(), self.last_seen())
    }

    /// Histories are bounded with non-negative samples, and names are unique.
    pub open spec fn wf(self) -> bool {
        &&& forall|p: u32|
            #[trigger] self.hist().contains_key(p) ==> valid_history(self.hist()[p])
        &&& forall|i: int, j: int|
            0 <= i < j < self.entries().len() ==> (#[trigger] self.entries()[i]).0 != (
            #[trigger] self.entries()[j]).0
    }

    /// The most recent sample for the VM's current PID, if any.
    pub open spec fn latest_usage(self, name: Seq<u8>) -> Option<(int, int)> {
        let i = find_entry(self.entries(), name, 0);
        if i < self.entries().len() {
            let pid = self.entries()[i].1;
            if self.hist().contains_key(pid) && self.hist()[pid].len() > 0 {
                Option::Some(self.hist()[pid].last())
            } else {
                Option::None
            }
        } else {
            Option::None
        }
    }

    /// The vCPU count last discovered for the VM, if any.
    pub open spec fn vcpu_of(self, name: Seq<u8>) -> Option<u32> {
        let i = find_entry(self.entries(), name, 0);
        if i < self.entries().len() {
            Option::Some(self.entries()[i].2)
        } else {
            Option::None
        }
    }

    /// An empty registry.
    pub fn new() -> (r: CpuUsageTracker)
        ensures
            r.wf(),
            r.entries() == Seq::<(Seq<u8>, u32, u32)>::empty(),
            r.hist() == Map::<u32, Seq<(int, int)>>::empty(),
            r.last_seen() == Map::<u32, (u64, u64)>::empty(),
    {
        let r = CpuUsageTracker {
            history: HashMap::new(),
            vm_entries: Vec::new(),
            last_times: HashMap::new(),
        };
        proof {
            assert(r.hist() =~= Map::<u32, Seq<(int, int)>>::empty());
            assert(r.entries() =~= Seq::<(Seq<u8>, u32, u32)>::empty());
        }
        r
    }

    /// Overwrite (or create) the name entry for one discovered process.
    pub fn record_vm_process(&mut self, vm_name: &[u8], pid: u32, vcpu_count: u32)
        requires
            old(self).wf(),
        ensures
            final(self).wf(),
            final(self).hist() == old(self).hist(),
            final(self).last_seen() == old(self).last_seen(),
            final(self).entries() == record_entry(old(self).entries(), vm_name@, pid, vcpu_count),
    {
        let ghost entries0 = self.entries();
        let mut i: usize = 0;
        let n = self.vm_entries.len();
        while i < n
            invariant
                i <= n,
                n == self.vm_entries@.len(),
                entries0 == self.entries(),
                self.wf(),
                *self == *old(self),
                find_entry(entries0, vm_name@, 0) == find_entry(entries0, vm_name@, i as int),
            decreases n - i,
        {
            proof {
                assert(entries0[i as int] == (self.vm_entries@[i as int].name@,
                self.vm_entries@[i as int].pid, self.vm_entries@[i as int].vcpu_count));
            }
            if bytes_eq(self.vm_entries[i].name.as_slice(), vm_name) {
                let entry = VmEntry { name: crate::text::copy_bytes(vm_name), pid, vcpu_count };
                self.vm_entries[i] = entry;
                proof {
                    assert(find_entry(entries0, vm_name@, 0) == i as int);
                    let entries1 = self.entries();
                    assert(entries1 =~= entries0.update(i as int, (vm_name@, pid, vcpu_count)));
                    assert forall|a: int, b: int|
                        0 <= a < b < entries1.len() implies (#[trigger] entries1[a]).0 != (
                    #[trigger] entries1[b]).0 by {
                        assert(entries0[a].0 != entries0[b].0);
                        if a == i || b == i {
                            assert(entries0[i as int].0 == vm_name@);
                        }
                    }
                    assert(self.hist() == old(self).hist());
                    assert(self.last_seen() == old(self).last_seen());
                    assert(self.entries() == record_entry(
                        old(self).entries(),
                        vm_name@,
                        pid,
                        vcpu_count,
                    ));
                    assert forall|p: u32| #[trigger] self.hist().contains_key(p)
                        implies valid_history(self.hist()[p]) by {
                        assert(old(self).hist().contains_key(p));
                    }
                }
                return ;
            }
            i = i + 1;
        }
        let entry = VmEntry { name: crate::text::copy_bytes(vm_name), pid, vcpu_count };
        self.vm_entries.push(entry);
        proof {
            assert(find_entry(entries0, vm_name@, 0) == entries0.len());
            lemma_find_entry_props(entries0, vm_name@, 0);
            let entries1 = self.entries();
            assert(entries1 =~= entries0.push((vm_name@, pid, vcpu_count)));
            assert forall|a: int, b: int|
                0 <= a < b < entries1.len() implies (#[trigger] entries1[a]).0 != (
            #[trigger] entries1[b]).0 by {
                if b < entries0.len() {
                    assert(entries0[a].0 != entries0[b].0);
                } else {
                    assert(entries0[a].0 != vm_name@);
                }
            }
            assert(self.hist() == old(self).hist());
            assert(self.last_seen() == old(self).last_seen());
        }
    }

    /// Record a CPU-time counter observation for one PID at time `now`:
    /// append a rate sample when time advanced strictly, then remember the
    /// observation.
    pub fn update_cpu_usage(&mut self, pid: u32, current_cpu_time: u64, now: u64)
        requires
            old(self).wf(),
        ensures
            final(self).wf(),
            final(self).entries() == old(self).entries(),
            final(self).last_seen() == old(self).last_seen().insert(
                pid,
                (current_cpu_time, now),
            ),
            final(self).hist() == match sample_appended(
                if old(self).last_seen().contains_key(pid) {
                    Option::Some(old(self).last_seen()[pid])
                } else {
                    Option::None
                },
                current_cpu_time,
                now,
            ) {
                Option::Some(s) => old(self).hist().insert(
                    pid,
                    push_evict(
                        if old(self).hist().contains_key(pid) {
                            old(self).hist()[pid]
                        } else {
                            Seq::empty()
                        },
                        s,
                    ),
                ),
                Option::None => old(self).hist(),
            },
    {
        let ghost h0 = self.hist();
        let prior: Option<(u64, u64)> = match self.last_times.get(&pid) {
            Option::Some(p) => Option::Some(*p),
            Option::None => Option::None,
        };
        if let Option::Some((last_cpu, last_t)) = prior {
            let elapsed = if now >= last_t {
                now - last_t
            } else {
                0
            };
            let delta = if current_cpu_time >= last_cpu {
                current_cpu_time - last_cpu
            } else {
                0
            };
            if elapsed > 0 && delta <= i64::MAX as u64 && elapsed <= i64::MAX as u64 {
                let sample = Rat::new(delta as i64, elapsed as i64);
                let mut h: Vec<Rat> = Vec::new();
                let ghost old_seq: Seq<(int, int)> = if h0.contains_key(pid) {
                    h0[pid]
                } else {
                    Seq::empty()
                };
                match self.history.get(&pid) {
                    Option::Some(prev) => {
                        let m = prev.len();
                        let mut j: usize = 0;
                        while j < m
                            invariant
                                j <= m,
                                m == prev@.len(),
                                h@ == prev@.take(j as int),
                            decreases m - j,
                        {
                            h.push(prev[j]);
                            proof {
                                assert(h@ =~= prev@.take(j + 1));
                            }
                            j = j + 1;
                        }
                        proof {
                            assert(prev@.take(m as int) =~= prev@);
                            assert(h0.contains_key(pid));
                            assert(h@.map_values(|r: Rat| r@) == old_seq);
                        }
                    },
                    Option::None => {
                        proof {
                            assert(!h0.contains_key(pid));
                            assert(h@.map_values(|r: Rat| r@) =~= old_seq);
                        }
                    },
                }
                h.push(sample);
                if h.len() > MAX_HISTORY {
                    h.remove(0);
                    proof {
                        assert(h@.map_values(|r: Rat| r@) =~= push_evict(old_seq, sample@));
                    }
                } else {
                    proof {
                        assert(h@.map_values(|r: Rat| r@) =~= push_evict(old_seq, sample@));
                    }
                }
                let ghost hseq = h@.map_values(|r: Rat| r@);
                proof {
                    assert(valid_history(old_seq)) by {
                        if h0.contains_key(pid) {
                            assert(old(self).hist().contains_key(pid));
                        }
                    }
                    assert(hseq == push_evict(old_seq, sample@));
                    assert(valid_history(hseq)) by {
                        assert(sample@.0 >= 0 && sample@.1 > 0);
                        if old_seq.len() < MAX_HISTORY {
                            assert(hseq == old_seq.push(sample@));
                            assert forall|j: int| 0 <= j < hseq.len() implies (#[trigger] hseq[j]).0
                                >= 0 && hseq[j].1 > 0 by {
                                if j < old_seq.len() {
                                    assert(hseq[j] == old_seq[j]);
                                } else {
                                    assert(hseq[j] == sample@);
                                }
                            }
                        } else {
                            assert(hseq == old_seq.push(sample@).skip(1));
                            assert forall|j: int| 0 <= j < hseq.len() implies (#[trigger] hseq[j]).0
                                >= 0 && hseq[j].1 > 0 by {
                                assert(hseq[j] == old_seq.push(sample@)[j + 1]);
                                if j + 1 < old_seq.len() {
                                    assert(old_seq.push(sample@)[j + 1] == old_seq[j + 1]);
                                } else {
                                    assert(old_seq.push(sample@)[j + 1] == sample@);
                                }
                            }
                        }
                    }
                }
                self.history.insert(pid, h);
                proof {
                    assert(self.hist() =~= h0.insert(pid, hseq));
                    assert forall|p: u32| #[trigger] self.hist().contains_key(p)
                        implies valid_history(self.hist()[p]) by {
                        if p != pid {
                            assert(h0.contains_key(p));
                            assert(old(self).hist().contains_key(p));
                            assert(self.hist()[p] == h0[p]);
                        }
                    }
                }
            } else {
                proof {
                    assert(self.hist() == h0);
                }
            }
        } else {
            proof {
                assert(self.hist() == h0);
            }
        }
        self.last_times.insert(pid, (current_cpu_time, now));
        proof {
            assert(self.entries() == old(self).entries());
            assert(self.last_seen() == old(self).last_seen().insert(
                pid,
                (current_cpu_time, now),
            ));
        }
    }

    /// Record everything one cycle learned about one process.
    pub fn observe_process(&mut self, rec: &DiscoveredProcess, now: u64)
        requires
            old(self).wf(),
        ensures
            final(self).wf(),
            final(self).state() == observe_step(old(self).state(), rec@, now),
    {
        self.record_vm_process(rec.vm_name.as_slice(), rec.pid, rec.vcpu_count);
        match rec.cpu_time {
            Option::Some(ct) => {
                self.update_cpu_usage(rec.pid, ct, now);
            },
            Option::None => {},
        }
    }

    /// Record a whole discovery cycle, in order, at time `now`.
    pub fn run_cycle(&mut self, discovered: &Vec<DiscoveredProcess>, now: u64)
        requires
            old(self).wf(),
        ensures
            final(self).wf(),
            final(self).state() == observe_cycle(
                old(self).state(),
                discovered@.map_values(|d: DiscoveredProcess| d@),
                now,
            ),
    {
        let ghost all = discovered@.map_values(|d: DiscoveredProcess| d@);
        let n = discovered.len();
        let mut i: usize = 0;
        proof {
            assert(all.skip(0) =~= all);
        }
        while i < n
            invariant
                i <= n,
                n == discovered@.len(),
                all == discovered@.map_values(|d: DiscoveredProcess| d@),
                self.wf(),
                observe_cycle(self.state(), all.skip(i as int), now) == observe_cycle(
                    old(self).state(),
                    all,
                    now,
                ),
            decreases n - i,
        {
            proof {
                assert(all.skip(i as int).len() > 0);
                assert(all.skip(i as int)[0] == all[i as int]);
                assert(all.skip(i as int).skip(1) =~= all.skip(i as int + 1));
            }
            self.observe_process(&discovered[i], now);
            i = i + 1;
        }
        proof {
            assert(all.skip(n as int) =~= Seq::<(Seq<u8>, u32, u32, Option<u64>)>::empty());
        }
    }

    /// The most recent usage sample for the VM named `vm_name`, or `None`
    /// when the name is unknown or its PID has no sample yet.
    pub fn get_last_cpu_usage_for_vm(&self, vm_name: &[u8]) -> (r: Option<Rat>)
        requires
            self.wf(),
        ensures
            r is Some <==> self.latest_usage(vm_name@) is Some,
            r matches Some(v) ==> v.wf() && Option::Some(v@) == self.latest_usage(vm_name@),
    {
        let ghost entries0 = self.entries();
        let mut i: usize = 0;
        let n = self.vm_entries.len();
        while i < n
            invariant
                i <= n,
                n == self.vm_entries@.len(),
                entries0 == self.entries(),
                self.wf(),
                find_entry(entries0, vm_name@, 0) == find_entry(entries0, vm_name@, i as int),
            decreases n - i,
        {
            proof {
                assert(entries0[i as int] == (self.vm_entries@[i as int].name@,
                self.vm_entries@[i as int].pid, self.vm_entries@[i as int].vcpu_count));
            }
            if bytes_eq(self.vm_entries[i].name.as_slice(), vm_name) {
                let pid = self.vm_entries[i].pid;
                match self.history.get(&pid) {
                    Option::Some(hv) => {
                        if hv.len() > 0 {
                            let v = hv[hv.len() - 1];
                            proof {
                                assert(self.hist().contains_key(pid));
                                assert(self.hist()[pid] == hv@.map_values(|r: Rat| r@));
                                assert(self.hist()[pid].last() == v@);
                                assert(valid_history(self.hist()[pid]));
                            }
                            return Option::Some(v);
                        } else {
                            proof {
                                assert(self.hist().contains_key(pid));
                                assert(self.hist()[pid].len() == 0);
                            }
                            return Option::None;
                        }
                    },
                    Option::None => {
                        proof {
                            assert(!self.hist().contains_key(pid));
                        }
                        return Option::None;
                    },
                }
            }
            i = i + 1;
        }
        Option::None
    }

    /// A copy of the usage history recorded for `pid`, oldest first; empty
    /// when the PID has no sample yet.
    pub fn usage_samples_for_pid(&self, pid: u32) -> (r: Vec<Rat>)
        ensures
            r@.map_values(|x: Rat| x@) == (if self.hist().contains_key(pid) {
                self.hist()[pid]
            } else {
                Seq::<(int, int)>::empty()
            }),
    {
        let mut out: Vec<Rat> = Vec::new();
        match self.history.get(&pid) {
            Option::Some(prev) => {
                let m = prev.len();
                let mut j: usize = 0;
                while j < m
                    invariant
                        j <= m,
                        m == prev@.len(),
                        out@ == prev@.take(j as int),
                    decreases m - j,
                {
                    out.push(prev[j]);
                    proof {
                        assert(out@ =~= prev@.take(j + 1));
                    }
                    j = j + 1;
                }
                proof {
                    assert(prev@.take(m as int) =~= prev@);
                    assert(self.hist().contains_key(pid));
                    assert(out@.map_values(|x: Rat| x@) == self.hist()[pid]);
                }
            },
            Option::None => {
                proof {
                    assert(!self.hist().contains_key(pid));
                    assert(out@.map_values(|x: Rat| x@) =~= Seq::<(int, int)>::empty());
                }
            },
        }
        out
    }

    /// The vCPU count last discovered for the VM named `vm_name`.
    pub fn vcpu_count(&self, vm_name: &[u8]) -> (r: Option<u32>)
        requires
            self.wf(),
        ensures
            r == self.vcpu_of(vm_name@),
    {
        let ghost entries0 = self.entries();
        let mut i: usize = 0;
        let n = self.vm_entries.len();
        while i < n
            invariant
                i <= n,
                n == self.vm_entries@.len(),
                entries0 == self.entries(),
                find_entry(entries0, vm_name@, 0) == find_entry(entries0, vm_name@, i as int),
            decreases n - i,
        {
            proof {
                assert(entries0[i as int] == (self.vm_entries@[i as int].name@,
                self.vm_entries@[i as int].pid, self.vm_entries@[i as int].vcpu_count));
            }
            if bytes_eq(self.vm_entries[i].name.as_slice(), vm_name) {
                return Option::Some(self.vm_entries[i].vcpu_count);
            }
            i = i + 1;
        }
        Option::None
    }
}

/// The first match of `find_entry` really is a match, and nothing before it
/// matches.
proof fn lemma_find_entry_props(entries: Seq<(Seq<u8>, u32, u32)>, name: Seq<u8>, i: int)
    requires
        0 <= i <= entries.len(),
    ensures
        i <= find_entry(entries, name, i) <= entries.len(),
        find_entry(entries, name, i) < entries.len() ==> entries[find_entry(
            entries,
            name,
            i,
        )].0 == name,
        forall|j: int| i <= j < find_entry(entries, name, i) ==> entries[j].0 != name,
    decreases entries.len() - i,
{
    if i < entries.len() && entries[i].0 != name {
        lemma_find_entry_props(entries, name, i + 1);
    }
}

/// Law: a history never exceeds its capacity, and when a sample arrives at
/// capacity the oldest sample is the one evicted: each surviving sample
/// shifts down one slot and the new sample enters at the end.
pub proof fn lemma_history_bounded_evicts_oldest(h: Seq<(int, int)>, s: (int, int))
    requires
        h.len() <= MAX_HISTORY,
    ensures
        push_evict(h, s).len() <= MAX_HISTORY,
        push_evict(h, s).last() == s,
        h.len() < MAX_HISTORY ==> push_evict(h, s) == h.push(s),
        h.len() == MAX_HISTORY ==> {
            &&& push_evict(h, s).len() == MAX_HISTORY
            &&& forall|j: int| 0 <= j < MAX_HISTORY - 1 ==> push_evict(h, s)[j] == h[j + 1]
            &&& push_evict(h, s)[MAX_HISTORY - 1] == s
        },
{
    if h.len() == MAX_HISTORY {
        assert(push_evict(h, s) =~= h.push(s).skip(1));
        assert forall|j: int| 0 <= j < MAX_HISTORY - 1 implies push_evict(h, s)[j] == h[j
            + 1] by {
            assert(h.push(s).skip(1)[j] == h.push(s)[j + 1]);
        }
    }
}

/// Law: every sample a registry under `wf` holds is a non-negative rate over
/// a positive elapsed time, and every history is within capacity.
pub proof fn lemma_samples_clamped_nonnegative(t: CpuUsageTracker, p: u32, j: int)
    requires
        t.wf(),
        t.hist().contains_key(p),
        0 <= j < t.hist()[p].len(),
    ensures
        t.hist()[p].len() <= MAX_HISTORY,
        t.hist()[p][j].0 >= 0,
        t.hist()[p][j].1 > 0,
{
    assert(valid_history(t.hist()[p]));
}

} // verus!
