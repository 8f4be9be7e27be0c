use crate::evictors::{
    evict, lemma_victim_ignores_draw, lemma_victim_in_range, policy_of_name,
    resident_have_entries, select_victim, victim_is_drawn, victim_spec, Memory, PageTable,
    PageTableEntry, Policy,
};
use crate::operation::{parse_spec, Op, Operation, SimError};
use std::collections::HashMap;
use vstd::prelude::*;

verus! {

broadcast use vstd::std_specs::hash::group_hash_axioms;

/// Cumulative counters of a run.
#[derive(Clone, Copy, Debug, PartialEq, Eq, Structural)]
pub struct SimState {
    /// Accesses processed.
    pub total_events: u32,
    /// Page loads, one per page fault.
    pub read_count: u32,
    /// Write-backs of dirty pages on eviction.
    pub write_count: u32,
}

/// The abstract state of a simulation.
pub struct SimModel {
    pub policy: Policy,
    pub state: SimState,
    pub memory: Seq<Option<u32>>,
    pub table: Map<u32, PageTableEntry>,
}

/// A simulation of one trace against a fixed number of physical page slots.
///
/// An evicted page's entry is removed from the page table only when the page
/// was dirty; a clean page keeps its entry, timestamps included, so that a
/// later reload under FIFO keeps the creation time of its first load.
pub struct Sim {
    pub algorithm: Policy,
    pub state: SimState,
    pub memory: Memory,
    pub page_table: PageTable,
}

impl View for Sim {
    type V = SimModel;

    open spec fn view(&self) -> SimModel {
        SimModel {
            policy: self.algorithm,
            state: self.state,
            memory: self.memory@,
            table: self.page_table@,
        }
    }
}

/// The state before any event, with `n` empty slots.
pub open spec fn initial_model(n: nat, p: Policy) -> SimModel {
    SimModel {
        policy: p,
        state: SimState { total_events: 0, read_count: 0, write_count: 0 },
        memory: Seq::new(n, |i: int| None),
        table: Map::empty(),
    }
}

/// Each virtual page occupies at most one slot.
pub open spec fn no_duplicate_pages(m: Seq<Option<u32>>) -> bool {
    forall|i: int, j: int|
        0 <= i < m.len() && 0 <= j < m.len() && i != j && (#[trigger] m[i]) is Some ==> m[i] != (
        #[trigger] m[j])
}

/// The invariant of a simulation.
pub open spec fn wf_model(s: SimModel) -> bool {
    &&& s.memory.len() > 0
    &&& resident_have_entries(s.memory, s.table)
    &&& no_duplicate_pages(s.memory)
    &&& s.state.write_count <= s.state.read_count <= s.state.total_events
}

/// The logical time of the next event: events are numbered from one.
pub open spec fn next_time(s: SimModel) -> u64 {
    (s.state.total_events + 1) as u64
}

/// The page table once the accessed page is sure to have an entry.
pub open spec fn table_with_entry(s: SimModel, o: Operation) -> Map<u32, PageTableEntry> {
    if s.table.contains_key(o.virtual_page_number) {
        s.table
    } else {
        s.table.insert(
            o.virtual_page_number,
            PageTableEntry { is_dirty: false, created_at: next_time(s), last_referenced: next_time(s) },
        )
    }
}

pub open spec fn is_resident(m: Seq<Option<u32>>, page: u32) -> bool {
    m.contains(Some(page))
}

/// The slot that the access loads its page into, on a fault.
pub open spec fn fault_slot(s: SimModel, o: Operation, draw: int) -> int {
    victim_spec(s.policy, s.memory, table_with_entry(s, o), draw)
}

/// The access faults and its victim slot holds a dirty page.
pub open spec fn writes_back(s: SimModel, o: Operation, draw: int) -> bool {
    let t = table_with_entry(s, o);
    let v = fault_slot(s, o, draw);
    &&& !is_resident(s.memory, o.virtual_page_number)
    &&& s.memory[v] is Some
    &&& t.contains_key(s.memory[v]->0)
    &&& t[s.memory[v]->0].is_dirty
}

/// One event: count it, create the page's entry if missing, on a fault load
/// the page into the victim slot (writing back and dropping the entry of a
/// dirty victim), then stamp the access and mark a write dirty.
pub open spec fn step_spec(s: SimModel, o: Operation, draw: int) -> SimModel {
    let vpn = o.virtual_page_number;
    let now = next_time(s);
    let t1 = table_with_entry(s, o);
    let fault = !is_resident(s.memory, vpn);
    let v = fault_slot(s, o, draw);
    let wb = writes_back(s, o, draw);
    let t2 = if wb {
        t1.remove(s.memory[v]->0)
    } else {
        t1
    };
    let e = t2[vpn];
    SimModel {
        policy: s.policy,
        state: SimState {
            total_events: (s.state.total_events + 1) as u32,
            read_count: if fault {
                (s.state.read_count + 1) as u32
            } else {
                s.state.read_count
            },
            write_count: if wb {
                (s.state.write_count + 1) as u32
            } else {
                s.state.write_count
            },
        },
        memory: if fault {
            s.memory.update(v, Some(vpn))
        } else {
            s.memory
        },
        table: t2.insert(
            vpn,
            PageTableEntry {
                is_dirty: e.is_dirty || o.op is W,
                created_at: e.created_at,
                last_referenced: now,
            },
        ),
    }
}

/// What a step needs: a valid state whose event counter can still grow, and
/// a draw among the slots.
pub open spec fn can_step(s: SimModel, draw: int) -> bool {
    &&& wf_model(s)
    &&& s.state.total_events < u32::MAX
    &&& 0 <= draw < s.memory.len()
}

/// Draws that are each a slot of an `n`-slot memory, for the first `k` events.
pub open spec fn valid_draws(draws: Seq<int>, n: nat, k: nat) -> bool {
    draws.len() >= k && forall|i: int| 0 <= i < k ==> 0 <= #[trigger] draws[i] < n
}

/// The state after processing `ops` in order, event `i` with draw `draws[i]`.
pub open spec fn run_spec(s: SimModel, ops: Seq<Operation>, draws: Seq<int>) -> SimModel
    decreases ops.len(),
{
    if ops.len() == 0 {
        s
    } else {
        step_spec(run_spec(s, ops.drop_last(), draws), ops.last(), draws[ops.len() - 1])
    }
}

/// A run reads only the draws of its own events.
pub proof fn lemma_run_reads_own_draws(
    s: SimModel,
    ops: Seq<Operation>,
    d1: Seq<int>,
    d2: Seq<int>,
)
    requires
        d1.len() >= ops.len(),
        d2.len() >= ops.len(),
        forall|i: int| 0 <= i < ops.len() ==> d1[i] == d2[i],
    ensures
        run_spec(s, ops, d1) == run_spec(s, ops, d2),
    decreases ops.len(),
{
    if ops.len() > 0 {
        lemma_run_reads_own_draws(s, ops.drop_last(), d1, d2);
    }
}

/// A step keeps the invariant, the policy and the number of slots.
pub proof fn lemma_step_wf(s: SimModel, o: Operation, d: int)
    requires
        can_step(s, d),
    ensures
        wf_model(step_spec(s, o, d)),
        step_spec(s, o, d).memory.len() == s.memory.len(),
        step_spec(s, o, d).policy == s.policy,
        0 <= fault_slot(s, o, d) < s.memory.len(),
{
    let vpn = o.virtual_page_number;
    let t1 = table_with_entry(s, o);
    let v = fault_slot(s, o, d);
    let r = step_spec(s, o, d);
    assert(resident_have_entries(s.memory, t1));
    lemma_victim_in_range(s.policy, s.memory, t1, d);
    let m = r.memory;
    if !is_resident(s.memory, vpn) {
        assert forall|i: int, j: int|
            0 <= i < m.len() && 0 <= j < m.len() && i != j && (#[trigger] m[i]) is Some implies m[i]
                != (#[trigger] m[j]) by {
            if i != v && j != v {
                assert(s.memory[i] == m[i] && s.memory[j] == m[j]);
            } else if i == v {
                assert(m[j] == s.memory[j]);
            } else {
                assert(m[i] == s.memory[i]);
            }
        }
        assert forall|j: int| 0 <= j < m.len() && (#[trigger] m[j]) is Some implies r.table.contains_key(
            m[j]->0,
        ) by {
            if j != v {
                assert(m[j] == s.memory[j]);
                assert(s.memory[j] != s.memory[v]);
            }
        }
    }
}

fn contains_page(memory: &Memory, page: u32) -> (r: bool)
    ensures
        r == is_resident(memory@, page),
{
    let mut i: usize = 0;
    while i < memory.len()
        invariant
            0 <= i <= memory@.len(),
            forall|j: int| 0 <= j < i ==> memory@[j] != Some(page),
        decreases memory@.len() - i,
    {
        if memory[i] == Some(page) {
            assert(memory@[i as int] == Some(page));
            return true;
        }
        i = i + 1;
    }
    false
}

impl Sim {
    pub open spec fn wf(&self) -> bool {
        wf_model(self@)
    }

    /// A simulation of `n_pages` empty slots under `policy`.
    pub fn with_policy(n_pages: u32, policy: Policy) -> (r: Sim)
        requires
            n_pages > 0,
        ensures
            r@ == initial_model(n_pages as nat, policy),
            r.wf(),
    {
        let mut memory: Memory = Vec::new();
        let mut i: u32 = 0;
        while i < n_pages
            invariant
                i <= n_pages,
                memory@ == Seq::new(i as nat, |j: int| None::<u32>),
            decreases n_pages - i,
        {
            memory.push(None);
            i = i + 1;
            assert(memory@ =~= Seq::new(i as nat, |j: int| None::<u32>));
        }
        let page_table: PageTable = HashMap::new();
        let r = Sim {
            algorithm: policy,
            state: SimState { total_events: 0, read_count: 0, write_count: 0 },
            memory,
            page_table,
        };
        assert(r@.table =~= Map::empty());
        r
    }

    /// A simulation of `n_pages` empty slots under the policy named `algorithm`.
    pub fn new(n_pages: u32, algorithm: &String) -> (r: Result<Sim, SimError>)
        ensures
            n_pages == 0 || policy_of_name(algorithm@) is None ==> r == Err::<Sim, SimError>(
                SimError::InvalidConfiguration,
            ),
            n_pages > 0 && policy_of_name(algorithm@) is Some ==> r is Ok && r->Ok_0@
                == initial_model(n_pages as nat, policy_of_name(algorithm@)->0) && r->Ok_0.wf(),
    {
        if n_pages == 0 {
            return Err(SimError::InvalidConfiguration);
        }
        match Policy::from_name(algorithm) {
            Some(p) => Ok(Sim::with_policy(n_pages, p)),
            None => Err(SimError::InvalidConfiguration),
        }
    }

    /// The logical time of the event being processed.
    fn now(&self) -> (r: u64)
        requires
            self.state.total_events < u32::MAX,
        ensures
            r == next_time(self@),
    {
        self.state.total_events as u64 + 1
    }

    /// Processes one access; `draw` stands for the slot that a random
    /// eviction picks, and `random` says to draw that slot by chance instead.
    fn advance(&mut self, o: &Operation, draw: usize, random: bool) -> (r: (SimState, Ghost<int>))
        requires
            can_step(old(self)@, draw as int),
        ensures
            0 <= r.1@ < old(self)@.memory.len(),
            !random ==> r.1@ == draw,
            !victim_is_drawn(old(self)@.policy, old(self)@.memory) ==> fault_slot(
                old(self)@,
                *o,
                r.1@,
            ) == fault_slot(old(self)@, *o, draw as int),
            final(self)@ == step_spec(old(self)@, *o, r.1@),
            final(self).wf(),
            r.0 == final(self).state,
    {
        let ghost s0 = self@;
        let vpn = o.virtual_page_number;
        let now = self.now();
        if !self.page_table.contains_key(&vpn) {
            self.page_table.insert(vpn, PageTableEntry::new(now));
        }
        assert(self.page_table@ == table_with_entry(s0, *o));
        let ghost mut used: int = draw as int;
        let mut state = self.state;
        state.total_events = state.total_events + 1;
        if !contains_page(&self.memory, vpn) {
            assert(resident_have_entries(self.memory@, self.page_table@));
            let v = if random {
                evict(self.algorithm, &self.memory, &self.page_table)
            } else {
                select_victim(self.algorithm, &self.memory, &self.page_table, draw)
            };
            proof {
                if random {
                    used = v as int;
                    if !victim_is_drawn(s0.policy, s0.memory) {
                        lemma_victim_ignores_draw(
                            s0.policy,
                            s0.memory,
                            self.page_table@,
                            0,
                            draw as int,
                        );
                    }
                }
            }
            assert(v == fault_slot(s0, *o, used));
            if let Some(victim) = self.memory[v] {
                if let Some(entry) = self.page_table.get(&victim) {
                    if entry.is_dirty {
                        self.page_table.remove(&victim);
                        state.write_count = state.write_count + 1;
                    }
                }
            }
            state.read_count = state.read_count + 1;
            self.memory[v] = Some(vpn);
        }
        let mut entry = *self.page_table.get(&vpn).unwrap();
        entry.reference(now);
        match o.op {
            Op::W => {
                entry.is_dirty = true;
            },
            Op::R => {},
        }
        self.page_table.insert(vpn, entry);
        self.state = state;
        assert(self@.table =~= step_spec(s0, *o, used).table);
        assert(self@.memory =~= step_spec(s0, *o, used).memory);
        proof {
            lemma_step_wf(s0, *o, used);
        }
        (state, Ghost(used))
    }

    /// Processes one access, with `draw` as the slot that a random eviction picks.
    pub fn apply(&mut self, o: &Operation, draw: usize) -> (r: SimState)
        requires
            can_step(old(self)@, draw as int),
        ensures
            final(self)@ == step_spec(old(self)@, *o, draw as int),
            final(self).wf(),
            r == final(self).state,
    {
        self.advance(o, draw, false).0
    }

    /// Processes one access; a random eviction draws its slot by chance.
    pub fn step(&mut self, o: &Operation) -> (r: SimState)
        requires
            old(self).wf(),
            old(self).state.total_events < u32::MAX,
        ensures
            exists|d: int|
                0 <= d < old(self)@.memory.len() && final(self)@ == #[trigger] step_spec(
                    old(self)@,
                    *o,
                    d,
                ),
            !victim_is_drawn(old(self)@.policy, old(self)@.memory) ==> final(self)@ == step_spec(
                old(self)@,
                *o,
                0,
            ),
            final(self).wf(),
            r == final(self).state,
    {
        self.advance(o, 0, true).0
    }

    /// Decodes one trace line and processes it; a line that does not decode
    /// leaves the simulation untouched.
    pub fn next_line(&mut self, line: String) -> (r: Result<SimState, SimError>)
        requires
            old(self).wf(),
            old(self).state.total_events < u32::MAX,
        ensures
            final(self).wf(),
            match parse_spec(line@) {
                Err(e) => r == Err::<SimState, SimError>(e) && final(self)@ == old(self)@,
                Ok(o) => {
                    &&& r == Ok::<SimState, SimError>(final(self).state)
                    &&& exists|d: int|
                        0 <= d < old(self)@.memory.len() && final(self)@ == #[trigger] step_spec(
                            old(self)@,
                            o,
                            d,
                        )
                    &&& !victim_is_drawn(old(self)@.policy, old(self)@.memory) ==> final(self)@
                        == step_spec(old(self)@, o, 0)
                },
            },
    {
        match Operation::parse_line(line) {
            Ok(o) => Ok(self.step(&o)),
            Err(e) => Err(e),
        }
    }

    /// Processes every access of `ops` in order.
    pub fn run(&mut self, ops: &Vec<Operation>) -> (r: SimState)
        requires
            old(self).wf(),
            old(self).state.total_events + ops@.len() <= u32::MAX,
        ensures
            final(self).wf(),
            r == final(self).state,
            exists|draws: Seq<int>|
                valid_draws(draws, old(self)@.memory.len(), ops@.len()) && final(self)@
                    == #[trigger] run_spec(old(self)@, ops@, draws),
    {
        let ghost s0 = self@;
        let ghost mut draws: Seq<int> = Seq::empty();
        let mut i: usize = 0;
        assert(ops@.take(0) =~= Seq::<Operation>::empty());
        while i < ops.len()
            invariant
                0 <= i <= ops@.len(),
                self.wf(),
                self@.memory.len() == s0.memory.len(),
                self@.state.total_events == s0.state.total_events + i,
                s0.state.total_events + ops@.len() <= u32::MAX,
                valid_draws(draws, s0.memory.len(), i as nat),
                draws.len() == i,
                self@ == run_spec(s0, ops@.take(i as int), draws),
            decreases ops@.len() - i,
        {
            let ghost before = self@;
            let (st, used) = self.advance(&ops[i], 0, true);
            proof {
                lemma_step_wf(before, ops@[i as int], used@);
                let next = draws.push(used@);
                lemma_run_reads_own_draws(s0, ops@.take(i as int), draws, next);
                assert(ops@.take(i + 1).drop_last() =~= ops@.take(i as int));
                draws = next;
            }
            i = i + 1;
        }
        assert(ops@.take(i as int) =~= ops@);
        self.state
    }
}

} // verus!

