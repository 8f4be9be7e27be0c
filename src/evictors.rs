use rand::Rng;
use std::collections::HashMap;
use vstd::prelude::*;

verus! {

broadcast use vstd::std_specs::hash::group_hash_axioms;

/// Per-page metadata, timestamped by a logical clock.
#[derive(Clone, Copy, Debug, PartialEq, Eq, Structural)]
pub struct PageTableEntry {
    pub is_dirty: bool,
    pub created_at: u64,
    pub last_referenced: u64,
}

impl PageTableEntry {
    /// A clean entry created, and last referenced, at time `now`.
    pub fn new(now: u64) -> (r: Self)
        ensures
            r == (PageTableEntry { is_dirty: false, created_at: now, last_referenced: now }),
    {
        PageTableEntry { is_dirty: false, created_at: now, last_referenced: now }
    }

    /// Records an access at time `now`.
    pub fn reference(&mut self, now: u64)
        ensures
            *final(self) == (PageTableEntry { last_referenced: now, ..*old(self) }),
    {
        self.last_referenced = now;
    }
}

/// The eviction policies.
#[derive(Clone, Copy, Debug, PartialEq, Eq, Structural)]
pub enum Policy {
    Random,
    LeastRecentlyUsed,
    FirstInFirstOut,
}

/// Physical memory: one slot per frame, each empty or holding a virtual page number.
pub type Memory = Vec<Option<u32>>;

/// Page table: virtual page number to its metadata.
pub type PageTable = HashMap<u32, PageTableEntry>;

/// The policy that a name on the command line selects.
pub open spec fn policy_of_name(name: Seq<char>) -> Option<Policy> {
    if name == "random"@ {
        Some(Policy::Random)
    } else if name == "lru"@ {
        Some(Policy::LeastRecentlyUsed)
    } else if name == "fifo"@ {
        Some(Policy::FirstInFirstOut)
    } else {
        None
    }
}

impl Policy {
    /// Reads a policy name: `random`, `lru` or `fifo`.
    pub fn from_name(name: &String) -> (r: Option<Policy>)
        ensures
            r == policy_of_name(name@),
    {
        if *name == "random".to_owned() {
            Some(Policy::Random)
        } else if *name == "lru".to_owned() {
            Some(Policy::LeastRecentlyUsed)
        } else if *name == "fifo".to_owned() {
            Some(Policy::FirstInFirstOut)
        } else {
            None
        }
    }
}

/// Slot `i` is the first empty slot.
pub open spec fn is_first_empty(m: Seq<Option<u32>>, i: int) -> bool {
    &&& 0 <= i < m.len()
    &&& m[i] is None
    &&& forall|j: int| 0 <= j < i ==> m[j] is Some
}

pub open spec fn is_full(m: Seq<Option<u32>>) -> bool {
    forall|j: int| 0 <= j < m.len() ==> m[j] is Some
}

/// Every resident page has an entry in the page table.
pub open spec fn resident_have_entries(m: Seq<Option<u32>>, t: Map<u32, PageTableEntry>) -> bool {
    forall|j: int| 0 <= j < m.len() && (#[trigger] m[j]) is Some ==> t.contains_key(m[j]->0)
}

/// Slot `i` holds a page that has a page-table entry.
pub open spec fn is_candidate(m: Seq<Option<u32>>, t: Map<u32, PageTableEntry>, i: int) -> bool {
    0 <= i < m.len() && m[i] is Some && t.contains_key(m[i]->0)
}

/// The timestamp by which a deterministic policy orders the resident pages.
pub open spec fn age_key(p: Policy, e: PageTableEntry) -> u64 {
    if p is FirstInFirstOut {
        e.created_at
    } else {
        e.last_referenced
    }
}

pub open spec fn slot_key(
    p: Policy,
    m: Seq<Option<u32>>,
    t: Map<u32, PageTableEntry>,
    i: int,
) -> u64 {
    age_key(p, t[m[i]->0])
}

/// Slot `i` holds the candidate with the smallest key, the lowest slot among equal keys.
pub open spec fn is_oldest(
    p: Policy,
    m: Seq<Option<u32>>,
    t: Map<u32, PageTableEntry>,
    i: int,
) -> bool {
    &&& is_candidate(m, t, i)
    &&& forall|j: int|
        #![trigger is_candidate(m, t, j)]
        is_candidate(m, t, j) ==> slot_key(p, m, t, i) < slot_key(p, m, t, j) || (slot_key(
            p,
            m,
            t,
            i,
        ) == slot_key(p, m, t, j) && i <= j)
}

/// The slot to load a faulting page into: the first empty slot if there is
/// one; otherwise the drawn slot under `Random`, the least recently
/// referenced page under `LeastRecentlyUsed`, the earliest created under
/// `FirstInFirstOut`.
pub open spec fn victim_spec(
    p: Policy,
    m: Seq<Option<u32>>,
    t: Map<u32, PageTableEntry>,
    draw: int,
) -> int {
    if exists|i: int| is_first_empty(m, i) {
        choose|i: int| is_first_empty(m, i)
    } else if p is Random {
        draw
    } else {
        choose|i: int| is_oldest(p, m, t, i)
    }
}

/// Whether choosing a victim draws on chance: a random policy and no empty slot.
pub open spec fn victim_is_drawn(p: Policy, m: Seq<Option<u32>>) -> bool {
    p is Random && is_full(m)
}

proof fn lemma_oldest_in_prefix(p: Policy, m: Seq<Option<u32>>, t: Map<u32, PageTableEntry>, k: int)
    requires
        1 <= k <= m.len(),
        is_full(m),
        resident_have_entries(m, t),
    ensures
        exists|i: int|
            0 <= i < k && is_candidate(m, t, i) && forall|j: int|
                #![trigger is_candidate(m, t, j)]
                0 <= j < k && is_candidate(m, t, j) ==> slot_key(p, m, t, i) < slot_key(p, m, t, j)
                    || (slot_key(p, m, t, i) == slot_key(p, m, t, j) && i <= j),
    decreases k,
{
    assert(m[k - 1] is Some);
    assert(is_candidate(m, t, k - 1));
    if k == 1 {
        assert(is_candidate(m, t, 0));
    } else {
        lemma_oldest_in_prefix(p, m, t, k - 1);
        let i = choose|i: int|
            0 <= i < k - 1 && is_candidate(m, t, i) && forall|j: int|
                #![trigger is_candidate(m, t, j)]
                0 <= j < k - 1 && is_candidate(m, t, j) ==> slot_key(p, m, t, i) < slot_key(
                    p,
                    m,
                    t,
                    j,
                ) || (slot_key(p, m, t, i) == slot_key(p, m, t, j) && i <= j);
        if slot_key(p, m, t, k - 1) < slot_key(p, m, t, i) {
            assert(is_candidate(m, t, k - 1));
        } else {
            assert(is_candidate(m, t, i));
        }
    }
}

/// The victim is a slot of memory; it is occupied only when memory is full.
pub proof fn lemma_victim_in_range(
    p: Policy,
    m: Seq<Option<u32>>,
    t: Map<u32, PageTableEntry>,
    d: int,
)
    requires
        m.len() > 0,
        0 <= d < m.len(),
        resident_have_entries(m, t),
    ensures
        0 <= victim_spec(p, m, t, d) < m.len(),
        m[victim_spec(p, m, t, d)] is Some ==> is_full(m),
{
    if !is_full(m) {
        let k = choose|k: int| 0 <= k < m.len() && !(m[k] is Some);
        lemma_first_empty_exists(m, k);
    } else if !(p is Random) {
        assert(!exists|k: int| is_first_empty(m, k));
        let n = m.len() as int;
        lemma_oldest_in_prefix(p, m, t, n);
        let i = choose|i: int|
            0 <= i < n && is_candidate(m, t, i) && forall|j: int|
                #![trigger is_candidate(m, t, j)]
                0 <= j < n && is_candidate(m, t, j) ==> slot_key(p, m, t, i) < slot_key(p, m, t, j)
                    || (slot_key(p, m, t, i) == slot_key(p, m, t, j) && i <= j);
        assert(is_oldest(p, m, t, i));
    }
}

/// The first empty slot is the victim, whatever the policy.
pub proof fn lemma_first_empty_unique(m: Seq<Option<u32>>, i: int)
    requires
        is_first_empty(m, i),
    ensures
        forall|p: Policy, t: Map<u32, PageTableEntry>, d: int| victim_spec(p, m, t, d) == i,
{
    let k = choose|k: int| is_first_empty(m, k);
    assert(k == i) by {
        if k < i {
            assert(m[k] is Some);
        } else if i < k {
            assert(m[i] is Some);
        }
    }
}

/// A memory with an empty slot has a first empty slot.
pub proof fn lemma_first_empty_exists(m: Seq<Option<u32>>, k: int)
    requires
        0 <= k < m.len(),
        m[k] is None,
    ensures
        exists|i: int| is_first_empty(m, i),
    decreases k,
{
    if exists|j: int| 0 <= j < k && m[j] is None {
        let j = choose|j: int| 0 <= j < k && m[j] is None;
        lemma_first_empty_exists(m, j);
    } else {
        assert(is_first_empty(m, k));
    }
}

/// Where nothing is drawn, the victim does not depend on the draw.
pub proof fn lemma_victim_ignores_draw(
    p: Policy,
    m: Seq<Option<u32>>,
    t: Map<u32, PageTableEntry>,
    d1: int,
    d2: int,
)
    requires
        !victim_is_drawn(p, m),
    ensures
        victim_spec(p, m, t, d1) == victim_spec(p, m, t, d2),
{
    if !is_full(m) {
        let k = choose|k: int| 0 <= k < m.len() && !(m[k] is Some);
        lemma_first_empty_exists(m, k);
    }
}

proof fn lemma_oldest_unique(p: Policy, m: Seq<Option<u32>>, t: Map<u32, PageTableEntry>, i: int)
    requires
        is_oldest(p, m, t, i),
        is_full(m),
        !(p is Random),
    ensures
        forall|d: int| victim_spec(p, m, t, d) == i,
{
    assert(!exists|k: int| is_first_empty(m, k));
    let k = choose|k: int| is_oldest(p, m, t, k);
    assert(is_candidate(m, t, k) && is_candidate(m, t, i));
    assert(k == i);
}

fn get_first_empty_index(memory: &Memory) -> (r: Option<usize>)
    ensures
        match r {
            Some(i) => is_first_empty(memory@, i as int),
            None => is_full(memory@),
        },
{
    let mut i: usize = 0;
    while i < memory.len()
        invariant
            0 <= i <= memory@.len(),
            forall|j: int| 0 <= j < i ==> memory@[j] is Some,
        decreases memory@.len() - i,
    {
        if memory[i].is_none() {
            return Some(i);
        }
        i = i + 1;
    }
    None
}

/// Relies on rand::thread_rng and rand::Rng::gen_range: a value in
/// `[low, high)`, which panics only when `low >= high`.
#[verifier::external_body]
fn evict_random(len: usize) -> (r: usize)
    requires
        len > 0,
    ensures
        r < len,
{
    rand::thread_rng().gen_range(0, len)
}

/// The candidate slot with the smallest key under `p`, if any slot is a candidate.
fn oldest_slot(p: Policy, memory: &Memory, page_table: &PageTable) -> (r: Option<usize>)
    ensures
        match r {
            Some(i) => is_oldest(p, memory@, page_table@, i as int),
            None => forall|j: int| !is_candidate(memory@, page_table@, j),
        },
{
    let ghost m = memory@;
    let ghost t = page_table@;
    let mut best: Option<usize> = None;
    let mut best_key: u64 = 0;
    let mut i: usize = 0;
    while i < memory.len()
        invariant
            m == memory@,
            t == page_table@,
            0 <= i <= m.len(),
            match best {
                None => forall|j: int| 0 <= j < i ==> !is_candidate(m, t, j),
                Some(b) => {
                    &&& b < i
                    &&& is_candidate(m, t, b as int)
                    &&& best_key == slot_key(p, m, t, b as int)
                    &&& forall|j: int|
                        #![trigger is_candidate(m, t, j)]
                        0 <= j < i && is_candidate(m, t, j) ==> best_key < slot_key(p, m, t, j) || (
                        best_key == slot_key(p, m, t, j) && b <= j)
                },
            },
        decreases m.len() - i,
    {
        if let Some(page) = memory[i] {
            if let Some(entry) = page_table.get(&page) {
                let key = match p {
                    Policy::FirstInFirstOut => entry.created_at,
                    _ => entry.last_referenced,
                };
                assert(is_candidate(m, t, i as int));
                assert(key == slot_key(p, m, t, i as int));
                if best.is_none() || key < best_key {
                    best = Some(i);
                    best_key = key;
                }
            }
        }
        i = i + 1;
    }
    if let Some(b) = best {
        assert forall|j: int| #![trigger is_candidate(m, t, j)] is_candidate(m, t, j) implies slot_key(
            p,
            m,
            t,
            b as int,
        ) < slot_key(p, m, t, j) || (slot_key(p, m, t, b as int) == slot_key(p, m, t, j) && b
            <= j) by {}
    }
    best
}

/// The least recently referenced resident page's slot.
fn evict_least_recent(memory: &Memory, page_table: &PageTable) -> (r: usize)
    requires
        memory@.len() > 0,
        is_full(memory@),
        resident_have_entries(memory@, page_table@),
    ensures
        is_oldest(Policy::LeastRecentlyUsed, memory@, page_table@, r as int),
{
    assert(is_candidate(memory@, page_table@, 0));
    match oldest_slot(Policy::LeastRecentlyUsed, memory, page_table) {
        Some(i) => i,
        None => 0,
    }
}

/// The slot of the resident page that was created first.
fn evict_fifo(memory: &Memory, page_table: &PageTable) -> (r: usize)
    requires
        memory@.len() > 0,
        is_full(memory@),
        resident_have_entries(memory@, page_table@),
    ensures
        is_oldest(Policy::FirstInFirstOut, memory@, page_table@, r as int),
{
    assert(is_candidate(memory@, page_table@, 0));
    match oldest_slot(Policy::FirstInFirstOut, memory, page_table) {
        Some(i) => i,
        None => 0,
    }
}

/// The victim slot, with `draw` standing for the random choice among all slots.
pub fn select_victim(p: Policy, memory: &Memory, page_table: &PageTable, draw: usize) -> (r:
    usize)
    requires
        memory@.len() > 0,
        draw < memory@.len(),
        resident_have_entries(memory@, page_table@),
    ensures
        r == victim_spec(p, memory@, page_table@, draw as int),
        r < memory@.len(),
{
    if let Some(i) = get_first_empty_index(memory) {
        proof {
            lemma_first_empty_unique(memory@, i as int);
        }
        return i;
    }
    assert(!exists|k: int| is_first_empty(memory@, k));
    match p {
        Policy::Random => draw,
        Policy::LeastRecentlyUsed => {
            let i = evict_least_recent(memory, page_table);
            proof {
                lemma_oldest_unique(p, memory@, page_table@, i as int);
            }
            i
        },
        Policy::FirstInFirstOut => {
            let i = evict_fifo(memory, page_table);
            proof {
                lemma_oldest_unique(p, memory@, page_table@, i as int);
            }
            i
        },
    }
}

/// The victim slot for a page fault; under `Random` with no empty slot, a
/// slot drawn uniformly at random.
pub fn evict(p: Policy, memory: &Memory, page_table: &PageTable) -> (r: usize)
    requires
        memory@.len() > 0,
        resident_have_entries(memory@, page_table@),
    ensures
        r < memory@.len(),
        r == victim_spec(p, memory@, page_table@, r as int),
        !victim_is_drawn(p, memory@) ==> r == victim_spec(p, memory@, page_table@, 0),
{
    let full = get_first_empty_index(memory).is_none();
    let draw = match p {
        Policy::Random => {
            if full {
                evict_random(memory.len())
            } else {
                0
            }
        },
        _ => 0,
    };
    let r = select_victim(p, memory, page_table, draw);
    proof {
        if !victim_is_drawn(p, memory@) {
            lemma_victim_ignores_draw(p, memory@, page_table@, draw as int, 0);
        }
    }
    r
}

} // verus!
