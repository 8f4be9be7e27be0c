use crate::evictors::{
    is_first_empty, is_full, lemma_first_empty_unique, lemma_victim_ignores_draw,
    lemma_victim_in_range, Policy,
};
use crate::operation::{parse_spec, wf_operation, Operation};
use crate::sim::{
    can_step, fault_slot, initial_model, is_resident, lemma_step_wf, run_spec, step_spec,
    table_with_entry, valid_draws, wf_model, writes_back, SimModel,
};
use vstd::prelude::*;

verus! {

/// The virtual pages that a trace references.
pub open spec fn page_set(ops: Seq<Operation>) -> Set<u32>
    decreases ops.len(),
{
    if ops.len() == 0 {
        Set::empty()
    } else {
        page_set(ops.drop_last()).insert(ops.last().virtual_page_number)
    }
}

/// The access faults and its victim slot holds a page, which is evicted.
pub open spec fn evicts(s: SimModel, o: Operation, d: int) -> bool {
    !is_resident(s.memory, o.virtual_page_number) && s.memory[fault_slot(s, o, d)] is Some
}

/// The number of evictions in a run.
pub open spec fn evictions(s: SimModel, ops: Seq<Operation>, draws: Seq<int>) -> nat
    decreases ops.len(),
{
    if ops.len() == 0 {
        0
    } else {
        evictions(s, ops.drop_last(), draws) + if evicts(
            run_spec(s, ops.drop_last(), draws),
            ops.last(),
            draws[ops.len() - 1],
        ) {
            1nat
        } else {
            0nat
        }
    }
}

/// What holds after every prefix of a run from empty memory.
pub open spec fn run_invariant(n: nat, p: Policy, ops: Seq<Operation>, draws: Seq<int>) -> bool {
    let s = run_spec(initial_model(n, p), ops, draws);
    let ev = evictions(initial_model(n, p), ops, draws);
    let pages = page_set(ops);
    let m = s.memory;
    &&& wf_model(s)
    &&& m.len() == n
    &&& s.policy == p
    &&& s.state.total_events == ops.len()
    &&& s.state.write_count <= ev
    &&& s.state.read_count <= pages.len() + ev
    &&& pages.finite()
    &&& forall|i: int| 0 <= i < m.len() && (#[trigger] m[i]) is Some ==> pages.contains(m[i]->0)
    &&& ev == 0 ==> {
        &&& s.state.read_count == pages.len()
        &&& forall|i: int| 0 <= i < m.len() ==> ((#[trigger] m[i]) is Some <==> i < s.state.read_count)
        &&& forall|pg: u32| #[trigger] pages.contains(pg) ==> is_resident(m, pg)
    }
    &&& ev > 0 ==> is_full(m)
    &&& pages.len() <= n ==> ev == 0
}

proof fn lemma_run_invariant(n: nat, p: Policy, ops: Seq<Operation>, draws: Seq<int>)
    requires
        n > 0,
        ops.len() <= u32::MAX,
        valid_draws(draws, n, ops.len()),
    ensures
        run_invariant(n, p, ops, draws),
    decreases ops.len(),
{
    let s0 = initial_model(n, p);
    if ops.len() == 0 {
        assert(s0.table =~= Map::empty());
        return;
    }
    let prev_ops = ops.drop_last();
    lemma_run_invariant(n, p, prev_ops, draws);
    let o = ops.last();
    let vpn = o.virtual_page_number;
    let d = draws[ops.len() - 1];
    let s = run_spec(s0, prev_ops, draws);
    let ev = evictions(s0, prev_ops, draws);
    let pages = page_set(prev_ops);
    let m = s.memory;
    let r = step_spec(s, o, d);
    let t1 = table_with_entry(s, o);
    assert(can_step(s, d));
    lemma_step_wf(s, o, d);
    lemma_victim_in_range(p, m, t1, d);
    let v = fault_slot(s, o, d);
    let new_pages = page_set(ops);
    assert(new_pages == pages.insert(vpn));
    if is_resident(m, vpn) {
        let k = choose|k: int| 0 <= k < m.len() && m[k] == Some(vpn);
        assert(pages.contains(vpn));
        assert(new_pages =~= pages);
        assert(r.memory == m);
        assert(!evicts(s, o, d));
    } else {
        assert forall|k: int| 0 <= k < m.len() implies m[k] != Some(vpn) by {
            if m[k] == Some(vpn) {
                assert(m.contains(Some(vpn)));
            }
        }
        if ev == 0 {
            assert(!pages.contains(vpn));
            assert(new_pages.len() == pages.len() + 1);
            if s.state.read_count < n {
                assert(is_first_empty(m, s.state.read_count as int));
                lemma_first_empty_unique(m, s.state.read_count as int);
                assert(v == s.state.read_count);
            }
        }
        if m[v] is None {
            assert(!evicts(s, o, d));
            assert(!writes_back(s, o, d));
            assert(ev == 0);
            assert(!is_full(m));
            assert(s.state.read_count < n);
        } else {
            assert(evicts(s, o, d));
            assert(is_full(m));
            assert(pages.len() <= new_pages.len());
        }
        let m2 = r.memory;
        assert forall|i: int| 0 <= i < m2.len() && (#[trigger] m2[i]) is Some implies new_pages.contains(
            m2[i]->0,
        ) by {
            if i != v {
                assert(m2[i] == m[i]);
            }
        }
        if evictions(s0, ops, draws) == 0 {
            assert forall|pg: u32| #[trigger] new_pages.contains(pg) implies is_resident(m2, pg) by {
                if pg == vpn {
                    assert(m2[v] == Some(vpn));
                } else {
                    assert(pages.contains(pg));
                    assert(is_resident(m, pg));
                    let k = choose|k: int| 0 <= k < m.len() && m[k] == Some(pg);
                    assert(m2[k] == Some(pg));
                }
            }
        }
    }
}

/// Write-backs only accumulate: a run writes back at least as often as any
/// of its prefixes.
pub proof fn lemma_writes_monotone(
    n: nat,
    p: Policy,
    ops: Seq<Operation>,
    draws: Seq<int>,
    i: int,
)
    requires
        n > 0,
        ops.len() <= u32::MAX,
        valid_draws(draws, n, ops.len()),
        0 <= i <= ops.len(),
    ensures
        run_spec(initial_model(n, p), ops.take(i), draws).state.write_count <= run_spec(
            initial_model(n, p),
            ops,
            draws,
        ).state.write_count,
    decreases ops.len() - i,
{
    if i == ops.len() {
        assert(ops.take(i) =~= ops);
    } else {
        let next = ops.take(i + 1);
        lemma_writes_monotone(n, p, ops, draws, i + 1);
        assert(next.drop_last() =~= ops.take(i));
        lemma_run_invariant(n, p, ops.take(i), draws);
    }
}

/// A trace references no more pages than it has accesses.
pub proof fn lemma_page_set_len(ops: Seq<Operation>)
    ensures
        page_set(ops).finite(),
        page_set(ops).len() <= ops.len(),
    decreases ops.len(),
{
    if ops.len() > 0 {
        lemma_page_set_len(ops.drop_last());
    }
}

/// A full run counts every access as an event.
pub proof fn law_total_events(n: nat, p: Policy, ops: Seq<Operation>, draws: Seq<int>)
    requires
        n > 0,
        ops.len() <= u32::MAX,
        valid_draws(draws, n, ops.len()),
    ensures
        run_spec(initial_model(n, p), ops, draws).state.total_events == ops.len(),
{
    lemma_run_invariant(n, p, ops, draws);
}

/// Page loads never exceed the events, nor the distinct pages referenced
/// plus the evictions.
pub proof fn law_reads_bounded(n: nat, p: Policy, ops: Seq<Operation>, draws: Seq<int>)
    requires
        n > 0,
        ops.len() <= u32::MAX,
        valid_draws(draws, n, ops.len()),
    ensures
        ({
            let st = run_spec(initial_model(n, p), ops, draws).state;
            &&& st.read_count <= st.total_events
            &&& st.read_count <= page_set(ops).len() + evictions(initial_model(n, p), ops, draws)
        }),
{
    lemma_run_invariant(n, p, ops, draws);
}

/// With at least as many slots as distinct pages referenced, no page is
/// ever written back, under any policy.
pub proof fn law_no_write_back_when_memory_suffices(
    n: nat,
    p: Policy,
    ops: Seq<Operation>,
    draws: Seq<int>,
)
    requires
        n > 0,
        ops.len() <= u32::MAX,
        valid_draws(draws, n, ops.len()),
        page_set(ops).len() <= n,
    ensures
        run_spec(initial_model(n, p), ops, draws).state.write_count == 0,
        evictions(initial_model(n, p), ops, draws) == 0,
{
    lemma_run_invariant(n, p, ops, draws);
}

/// Under FIFO and LRU a run does not depend on the draws: the same trace
/// from the same state always ends in the same state.
pub proof fn law_deterministic_policies(s: SimModel, ops: Seq<Operation>, d1: Seq<int>, d2: Seq<int>)
    requires
        !(s.policy is Random),
        d1.len() >= ops.len(),
        d2.len() >= ops.len(),
    ensures
        run_spec(s, ops, d1) == run_spec(s, ops, d2),
    decreases ops.len(),
{
    if ops.len() > 0 {
        law_deterministic_policies(s, ops.drop_last(), d1, d2);
        let prev = run_spec(s, ops.drop_last(), d1);
        let o = ops.last();
        assert(prev.policy == s.policy) by {
            lemma_policy_kept(s, ops.drop_last(), d1);
        }
        lemma_victim_ignores_draw(
            prev.policy,
            prev.memory,
            table_with_entry(prev, o),
            d1[ops.len() - 1],
            d2[ops.len() - 1],
        );
    }
}

proof fn lemma_policy_kept(s: SimModel, ops: Seq<Operation>, d: Seq<int>)
    ensures
        run_spec(s, ops, d).policy == s.policy,
    decreases ops.len(),
{
    if ops.len() > 0 {
        lemma_policy_kept(s, ops.drop_last(), d);
    }
}

/// Decoding a line twice gives the same operation, or the same error.
pub proof fn law_parse_repeatable(a: Seq<char>, b: Seq<char>)
    requires
        a == b,
    ensures
        parse_spec(a) == parse_spec(b),
{
}

/// Page number and offset put back together give the address.
pub proof fn law_page_round_trip(o: Operation)
    requires
        wf_operation(o),
    ensures
        (o.virtual_page_number << 12u32) | o.page_offset == o.virtual_address,
{
    let va = o.virtual_address;
    assert(((va >> 12u32) << 12u32) | (va & 0xfffu32) == va) by (bit_vector);
}

} // verus!
