use crate::evictors::Policy;
use crate::laws::{
    law_no_write_back_when_memory_suffices, lemma_page_set_len, lemma_writes_monotone, page_set,
};
use crate::operation::Operation;
use crate::sim::{
    initial_model, lemma_run_reads_own_draws, lemma_step_wf, run_spec, step_spec, valid_draws, Sim,
};
use vstd::prelude::*;

verus! {

/// Step of the coarse search over memory sizes.
pub const SEARCH_STEP: u32 = 20;

/// Step of the sweep over memory sizes.
pub const SWEEP_STEP: u32 = 50;

/// The run of `ops` on `n` empty slots, with the given draws, writes back a page.
pub open spec fn run_writes_back(n: nat, p: Policy, ops: Seq<Operation>, draws: Seq<int>) -> bool {
    run_spec(initial_model(n, p), ops, draws).state.write_count > 0
}

/// Some run of `ops` on `n` slots writes back a page.
pub open spec fn some_run_writes_back(n: nat, p: Policy, ops: Seq<Operation>) -> bool {
    exists|draws: Seq<int>|
        valid_draws(draws, n, ops.len()) && #[trigger] run_writes_back(n, p, ops, draws)
}

/// Some run of `ops` on `n` slots writes back no page.
pub open spec fn some_run_clean(n: nat, p: Policy, ops: Seq<Operation>) -> bool {
    exists|draws: Seq<int>|
        valid_draws(draws, n, ops.len()) && !#[trigger] run_writes_back(n, p, ops, draws)
}

/// Runs `ops` on `n_pages` empty slots, stopping at the first write-back;
/// says whether one happened.
pub fn run_until_write(ops: &Vec<Operation>, n_pages: u32, policy: Policy) -> (r: bool)
    requires
        n_pages > 0,
        ops@.len() <= u32::MAX,
    ensures
        r ==> some_run_writes_back(n_pages as nat, policy, ops@),
        !r ==> some_run_clean(n_pages as nat, policy, ops@),
{
    let ghost n = n_pages as nat;
    let ghost s0 = initial_model(n, policy);
    let mut sim = Sim::with_policy(n_pages, policy);
    let ghost mut draws: Seq<int> = Seq::empty();
    let mut i: usize = 0;
    assert(ops@.take(0) =~= Seq::<Operation>::empty());
    while i < ops.len()
        invariant
            0 <= i <= ops@.len(),
            ops@.len() <= u32::MAX,
            n == n_pages as nat,
            s0 == initial_model(n, policy),
            sim.wf(),
            sim@.memory.len() == n,
            sim@.state.total_events == i,
            valid_draws(draws, n, i as nat),
            draws.len() == i,
            sim@ == run_spec(s0, ops@.take(i as int), draws),
            sim@.state.write_count == 0,
        decreases ops@.len() - i,
    {
        let ghost before = sim@;
        let st = sim.step(&ops[i]);
        let ghost d = choose|d: int|
            0 <= d < before.memory.len() && sim@ == #[trigger] step_spec(before, ops@[i as int], d);
        proof {
            lemma_step_wf(before, ops@[i as int], d);
            let next = draws.push(d);
            lemma_run_reads_own_draws(s0, ops@.take(i as int), draws, next);
            assert(ops@.take(i + 1).drop_last() =~= ops@.take(i as int));
            draws = next;
        }
        i = i + 1;
        if st.write_count > 0 {
            proof {
                let full = draws + Seq::new((ops@.len() - i) as nat, |k: int| 0int);
                assert forall|k: int| 0 <= k < ops@.len() implies 0 <= #[trigger] full[k] < n by {
                    if k < i {
                        assert(full[k] == draws[k]);
                    }
                }
                assert(ops@.take(i as int).len() == i);
                assert forall|k: int| 0 <= k < i implies draws[k] == #[trigger] full[k] by {}
                lemma_run_reads_own_draws(s0, ops@.take(i as int), draws, full);
                lemma_writes_monotone(n, policy, ops@, full, i as int);
                assert(run_writes_back(n, policy, ops@, full));
            }
            return true;
        }
    }
    assert(ops@.take(i as int) =~= ops@);
    assert(!run_writes_back(n, policy, ops@, draws));
    false
}

/// Some run of `ops` on `n` slots ends with `writes` write-backs.
pub open spec fn some_run_has_writes(n: nat, p: Policy, ops: Seq<Operation>, writes: u32) -> bool {
    exists|draws: Seq<int>|
        valid_draws(draws, n, ops.len()) && #[trigger] run_spec(initial_model(n, p), ops, draws).state.write_count
            == writes
}

/// Where some run at `n` slots writes back, `n` is below the number of pages referenced.
proof fn lemma_writes_need_fewer_slots(n: nat, p: Policy, ops: Seq<Operation>)
    requires
        n > 0,
        ops.len() <= u32::MAX,
        some_run_writes_back(n, p, ops),
    ensures
        n < page_set(ops).len() <= ops.len(),
{
    lemma_page_set_len(ops);
    let draws = choose|draws: Seq<int>|
        valid_draws(draws, n, ops.len()) && #[trigger] run_writes_back(n, p, ops, draws);
    if page_set(ops).len() <= n {
        law_no_write_back_when_memory_suffices(n, p, ops, draws);
    }
}

/// Searches for a memory size at which the trace causes no write-back:
/// sizes step up by twenty until a run is free of write-backs, then the
/// twenty sizes up to it are tried from the smallest. Each run stops at its
/// first write-back.
pub fn find_optimal_memory(ops: &Vec<Operation>, policy: Policy) -> (r: u32)
    requires
        ops@.len() + 20 <= u32::MAX,
    ensures
        r >= 1,
        some_run_clean(r as nat, policy, ops@),
        forall|k: int|
            1 <= k < r && (k % 20 == 0 || k > 20 * ((r - 1) / 20)) ==> #[trigger] some_run_writes_back(
                k as nat,
                policy,
                ops@,
            ),
{
    let mut upper: u32 = SEARCH_STEP;
    let mut writes = run_until_write(ops, upper, policy);
    while writes
        invariant
            upper >= 20,
            upper % 20 == 0,
            ops@.len() + 20 <= u32::MAX,
            writes ==> some_run_writes_back(upper as nat, policy, ops@),
            !writes ==> some_run_clean(upper as nat, policy, ops@),
            upper <= ops@.len() + 20,
            forall|j: int|
                20 <= j < upper && j % 20 == 0 ==> #[trigger] some_run_writes_back(j as nat, policy, ops@),
        decreases ops@.len() + 20 - upper,
    {
        proof {
            lemma_writes_need_fewer_slots(upper as nat, policy, ops@);
        }
        upper = upper + SEARCH_STEP;
        writes = run_until_write(ops, upper, policy);
    }
    let base = upper - SEARCH_STEP;
    let mut k: u32 = base + 1;
    while k < upper
        invariant
            base + 1 <= k <= upper,
            base == upper - 20,
            upper >= 20,
            upper % 20 == 0,
            ops@.len() <= u32::MAX,
            some_run_clean(upper as nat, policy, ops@),
            forall|j: int|
                20 <= j < upper && j % 20 == 0 ==> #[trigger] some_run_writes_back(j as nat, policy, ops@),
            forall|j: int| base < j < k ==> #[trigger] some_run_writes_back(j as nat, policy, ops@),
        decreases upper - k,
    {
        if !run_until_write(ops, k, policy) {
            assert(20 * ((k - 1) / 20) == base);
            return k;
        }
        k = k + 1;
    }
    assert(20 * ((upper - 1) / 20) == base);
    upper
}

/// Runs the whole trace at 50, 100, 150, ... slots until a run has no
/// write-back, and returns each size with its write-back count.
pub fn writes_to_memory(ops: &Vec<Operation>, policy: Policy) -> (r: Vec<(u32, u32)>)
    requires
        ops@.len() + 50 <= u32::MAX,
    ensures
        r@.len() >= 1,
        forall|k: int|
            0 <= k < r@.len() ==> (#[trigger] r@[k]).0 == 50 * (k + 1) && some_run_has_writes(
                r@[k].0 as nat,
                policy,
                ops@,
                r@[k].1,
            ),
        forall|k: int| 0 <= k < r@.len() - 1 ==> (#[trigger] r@[k]).1 > 0,
        r@.last().1 == 0,
{
    let mut entries: Vec<(u32, u32)> = Vec::new();
    let mut n_pages: u32 = 0;
    loop
        invariant
            ops@.len() + 50 <= u32::MAX,
            n_pages == 50 * entries@.len(),
            n_pages <= ops@.len(),
            forall|k: int|
                0 <= k < entries@.len() ==> (#[trigger] entries@[k]).0 == 50 * (k + 1)
                    && some_run_has_writes(entries@[k].0 as nat, policy, ops@, entries@[k].1),
            forall|k: int| 0 <= k < entries@.len() ==> (#[trigger] entries@[k]).1 > 0,
        decreases ops@.len() + 50 - n_pages,
    {
        n_pages = n_pages + SWEEP_STEP;
        let mut sim = Sim::with_policy(n_pages, policy);
        let last = sim.run(ops);
        let ghost draws = choose|draws: Seq<int>|
            valid_draws(draws, n_pages as nat, ops@.len()) && sim@ == #[trigger] run_spec(
                initial_model(n_pages as nat, policy),
                ops@,
                draws,
            );
        assert(some_run_has_writes(n_pages as nat, policy, ops@, last.write_count));
        entries.push((n_pages, last.write_count));
        if last.write_count == 0 {
            return entries;
        }
        proof {
            assert(run_writes_back(n_pages as nat, policy, ops@, draws));
            lemma_writes_need_fewer_slots(n_pages as nat, policy, ops@);
        }
    }
}

} // verus!
