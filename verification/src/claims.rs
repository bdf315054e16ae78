//! The allythread claims that the scheduler holds, and the claim index that guards them.
//!
//! A claim is held while it is queued, scheduled on an allythread core, or occupying one.
//! The claim index lets at most one claim per allythread be held at a time: every held
//! claim's ally is in the index, and no ally holds two claims.
use vstd::prelude::*;
use vstd::multiset::Multiset;
use crate::primitives::{AllyId, AllythreadClaim, AllythreadEntry, CoreIndex, CoreOccupied};
use crate::scheduler::{
    AssignmentKind, CoreAssignment, FreeState, FreedReason, QueuedAllythread, QueueView, ScheduleCtx,
    chain_assignment, enqueue_spec, free_all, free_step, has_on_core, is_scheduled_core, next_on_core_spec,
    position_on_core, pruned_id, rebalanced, requeue_all, requeue_step, schedule_upto, take_spec, thread_assignment,
    thread_offset, threads_in_cores,
};

verus! {

broadcast use vstd::multiset::group_multiset_axioms;

/// The ally of a core's occupant, where an allythread occupies it.
pub open spec fn occupant_ally(o: Option<CoreOccupied>) -> Multiset<AllyId> {
    match o {
        Some(CoreOccupied::Allythread(entry)) => Multiset::singleton(entry.claim.0),
        _ => Multiset::empty(),
    }
}

/// The ally of an assignment, where it is for an allythread.
pub open spec fn assigned_ally(a: CoreAssignment) -> Multiset<AllyId> {
    match a.kind {
        AssignmentKind::Allythread(_, _) => Multiset::singleton(a.ally_id),
        AssignmentKind::Allychain => Multiset::empty(),
    }
}

/// The allies of the queued claims, counted with repetition.
pub open spec fn queued_allies(q: Seq<QueuedAllythread>) -> Multiset<AllyId>
    decreases q.len(),
{
    if q.len() == 0 {
        Multiset::empty()
    } else {
        queued_allies(q.drop_last()).insert(q.last().claim.claim.0)
    }
}

/// The allies of the allythread assignments of a schedule, counted with repetition.
pub open spec fn scheduled_allies(s: Seq<CoreAssignment>) -> Multiset<AllyId>
    decreases s.len(),
{
    if s.len() == 0 {
        Multiset::empty()
    } else {
        scheduled_allies(s.drop_last()).add(assigned_ally(s.last()))
    }
}

/// The allies of the allythread claims occupying cores, counted with repetition.
pub open spec fn occupying_allies(cores: Seq<Option<CoreOccupied>>) -> Multiset<AllyId>
    decreases cores.len(),
{
    if cores.len() == 0 {
        Multiset::empty()
    } else {
        occupying_allies(cores.drop_last()).add(occupant_ally(cores.last()))
    }
}

/// The allies of every claim held: queued, scheduled, or occupying a core.
pub open spec fn held_claims(
    queue: Seq<QueuedAllythread>,
    scheduled: Seq<CoreAssignment>,
    cores: Seq<Option<CoreOccupied>>,
) -> Multiset<AllyId> {
    queued_allies(queue).add(scheduled_allies(scheduled)).add(occupying_allies(cores))
}

/// The index guards the held claims: no ally holds two, and every ally that holds one is in
/// the index.
pub open spec fn claims_sound(held: Multiset<AllyId>, index: Set<AllyId>) -> bool {
    forall|x: AllyId| #![trigger held.count(x)] held.count(x) <= 1 && (held.count(x) > 0 ==> index.contains(x))
}

/// Fewer claims held, under an index that keeps every ally that still holds one, are still
/// guarded.
pub proof fn lemma_claims_sound_fewer(h0: Multiset<AllyId>, i0: Set<AllyId>, h1: Multiset<AllyId>, i1: Set<AllyId>)
    requires
        claims_sound(h0, i0),
        forall|x: AllyId| #[trigger] h1.count(x) <= h0.count(x),
        forall|x: AllyId| h1.count(x) > 0 && i0.contains(x) ==> #[trigger] i1.contains(x),
    ensures
        claims_sound(h1, i1),
{
    assert forall|x: AllyId| #![trigger h1.count(x)] h1.count(x) <= 1 && (h1.count(x) > 0 ==> i1.contains(x)) by {
        assert(h0.count(x) <= 1);
    }
}

/// Appending to the queue adds the appended claim's ally.
pub proof fn lemma_queued_push(q: Seq<QueuedAllythread>, e: QueuedAllythread)
    ensures
        queued_allies(q.push(e)) == queued_allies(q).insert(e.claim.claim.0),
{
    assert(q.push(e).drop_last() =~= q);
}

/// Enqueueing adds the enqueued claim's ally.
pub proof fn lemma_queued_enqueue(v: QueueView, entry: AllythreadEntry, n: u32)
    ensures
        queued_allies(enqueue_spec(v, entry, n).queue) == queued_allies(v.queue).insert(entry.claim.0),
{
    lemma_queued_push(v.queue, QueuedAllythread { claim: entry, core_offset: v.next_core_offset });
}

/// Removing a queued claim removes its ally.
pub proof fn lemma_queued_remove(q: Seq<QueuedAllythread>, p: int)
    requires
        0 <= p < q.len(),
    ensures
        queued_allies(q.remove(p)).insert(q[p].claim.claim.0) =~= queued_allies(q),
    decreases q.len(),
{
    if p == q.len() - 1 {
        assert(q.remove(p) =~= q.drop_last());
    } else {
        lemma_queued_remove(q.drop_last(), p);
        assert(q.remove(p).drop_last() =~= q.drop_last().remove(p));
        assert(q.remove(p).last() == q.last());
        assert(q.drop_last()[p] == q[p]);
    }
}

/// Taking the next claim for a core removes its ally from the queued ones.
pub proof fn lemma_queued_take(v: QueueView, off: u32)
    requires
        has_on_core(v.queue, off),
    ensures
        queued_allies(take_spec(v, off).queue)
            .insert(v.queue[position_on_core(v.queue, off)].claim.claim.0) =~= queued_allies(v.queue),
{
    let p = position_on_core(v.queue, off);
    lemma_queued_remove(v.queue, p);
}

/// Queued allies add up over consecutive queues.
pub proof fn lemma_queued_concat(a: Seq<QueuedAllythread>, b: Seq<QueuedAllythread>)
    ensures
        queued_allies(a + b) =~= queued_allies(a).add(queued_allies(b)),
    decreases b.len(),
{
    if b.len() == 0 {
        assert(a + b =~= a);
    } else {
        lemma_queued_concat(a, b.drop_last());
        assert((a + b).drop_last() =~= a + b.drop_last());
        assert((a + b).last() == b.last());
    }
}

/// Queues with the same allies, position by position, have the same queued allies.
pub proof fn lemma_queued_same_allies(a: Seq<QueuedAllythread>, b: Seq<QueuedAllythread>)
    requires
        a.len() == b.len(),
        forall|i: int| 0 <= i < a.len() ==> a[i].claim.claim.0 == b[i].claim.claim.0,
    ensures
        queued_allies(a) == queued_allies(b),
    decreases a.len(),
{
    if a.len() > 0 {
        lemma_queued_same_allies(a.drop_last(), b.drop_last());
    }
}

/// Spreading claims over core offsets keeps their allies.
pub proof fn lemma_queued_rebalanced(kept: Seq<QueuedAllythread>, n: u32)
    ensures
        queued_allies(rebalanced(kept, n)) == queued_allies(kept),
{
    lemma_queued_same_allies(rebalanced(kept, n), kept);
}

/// The claims that occupy cores, taken as a queue, have the occupying allies.
pub proof fn lemma_queued_threads_in_cores(cores: Seq<Option<CoreOccupied>>)
    ensures
        queued_allies(threads_in_cores(cores)) =~= occupying_allies(cores),
    decreases cores.len(),
{
    if cores.len() > 0 {
        lemma_queued_threads_in_cores(cores.drop_last());
        let rest = threads_in_cores(cores.drop_last());
        match cores.last() {
            Some(CoreOccupied::Allythread(entry)) => {
                lemma_queued_push(rest, QueuedAllythread { claim: entry, core_offset: 0 });
            },
            _ => {},
        }
    }
}

/// Dropping the claims that do not survive keeps at most the queued claims of each ally,
/// and one fewer where an entry of that ally is dropped.
pub proof fn lemma_queued_filter(s: Seq<QueuedAllythread>, keep: spec_fn(QueuedAllythread) -> bool, x: AllyId)
    ensures
        queued_allies(s.filter(keep)).count(x) + (if pruned_id(s, keep, x) { 1int } else { 0int })
            <= queued_allies(s).count(x),
    decreases s.len(),
{
    reveal_with_fuel(Seq::filter, 1);
    if s.len() > 0 {
        let init = s.drop_last();
        let e = s.last();
        lemma_queued_filter(init, keep, x);
        assert(s =~= init.push(e));
        init.lemma_filter_push(e, keep);
        lemma_queued_push(init, e);
        if keep(e) {
            lemma_queued_push(init.filter(keep), e);
        }
        if pruned_id(s, keep, x) && !pruned_id(init, keep, x) {
            let k = choose|k: int| 0 <= k < s.len() && !keep(s[k]) && s[k].claim.claim.0 == x;
            if k < init.len() {
                assert(init[k] == s[k]);
            }
        }
        if pruned_id(init, keep, x) {
            let k = choose|k: int| 0 <= k < init.len() && !keep(init[k]) && init[k].claim.claim.0 == x;
            assert(s[k] == init[k]);
        }
    }
}

/// Appending an assignment adds its ally where it is for an allythread.
pub proof fn lemma_scheduled_push(s: Seq<CoreAssignment>, a: CoreAssignment)
    ensures
        scheduled_allies(s.push(a)) == scheduled_allies(s).add(assigned_ally(a)),
{
    assert(s.push(a).drop_last() =~= s);
}

/// Replacing a core's occupant swaps the occupying allies accordingly.
pub proof fn lemma_occupying_update(cores: Seq<Option<CoreOccupied>>, i: int, v: Option<CoreOccupied>)
    requires
        0 <= i < cores.len(),
    ensures
        occupying_allies(cores.update(i, v)).add(occupant_ally(cores[i]))
            =~= occupying_allies(cores).add(occupant_ally(v)),
    decreases cores.len(),
{
    let u = cores.update(i, v);
    if i == cores.len() - 1 {
        assert(u.drop_last() =~= cores.drop_last());
        assert(u.last() == v);
        assert(occupying_allies(u) == occupying_allies(cores.drop_last()).add(occupant_ally(v)));
        assert(occupying_allies(cores) == occupying_allies(cores.drop_last()).add(occupant_ally(cores[i])));
    } else {
        lemma_occupying_update(cores.drop_last(), i, v);
        assert(u.drop_last() =~= cores.drop_last().update(i, v));
        assert(cores.drop_last()[i] == cores[i]);
        assert(u.last() == cores.last());
        assert(occupying_allies(u) == occupying_allies(u.drop_last()).add(occupant_ally(cores.last())));
        assert(occupying_allies(cores) == occupying_allies(cores.drop_last()).add(occupant_ally(cores.last())));
        let d = cores.drop_last();
        assert forall|x: AllyId| #[trigger] occupying_allies(u).add(occupant_ally(cores[i])).count(x)
            == occupying_allies(cores).add(occupant_ally(v)).count(x) by {
            assert(occupying_allies(d.update(i, v)).add(occupant_ally(d[i])).count(x)
                == occupying_allies(d).add(occupant_ally(v)).count(x));
        }
    }
}

/// No allythread occupies cores that are all free.
pub proof fn lemma_occupying_free(cores: Seq<Option<CoreOccupied>>)
    requires
        forall|i: int| 0 <= i < cores.len() ==> cores[i] is None,
    ensures
        occupying_allies(cores) =~= Multiset::<AllyId>::empty(),
    decreases cores.len(),
{
    if cores.len() > 0 {
        lemma_occupying_free(cores.drop_last());
    }
}

/// Freeing one core keeps the held claims guarded: a concluded allythread's claim is
/// released together with its index entry, a timed-out one goes back to the queue.
pub proof fn lemma_free_step_claims(st: FreeState, freed: (CoreIndex, FreedReason), n: u32, sched: Seq<CoreAssignment>)
    requires
        claims_sound(held_claims(st.queue.queue, sched, st.cores), st.index),
    ensures
        ({
            let st2 = free_step(st, freed, n);
            claims_sound(held_claims(st2.queue.queue, sched, st2.cores), st2.index)
        }),
{
    let i = freed.0.0 as int;
    let st2 = free_step(st, freed, n);
    let h0 = held_claims(st.queue.queue, sched, st.cores);
    let h1 = held_claims(st2.queue.queue, sched, st2.cores);
    if i < st.cores.len() {
        lemma_occupying_update(st.cores, i, None);
        let occ0 = occupying_allies(st.cores);
        let occ1 = occupying_allies(st.cores.update(i, None));
        let gone = occupant_ally(st.cores[i]);
        assert forall|y: AllyId| #[trigger] occ1.count(y) + gone.count(y) == occ0.count(y) by {
            assert(occ1.add(gone).count(y) == occ0.add(occupant_ally(None)).count(y));
        }
        match st.cores[i] {
            None => {},
            Some(CoreOccupied::Allychain) => {
                assert forall|y: AllyId| #[trigger] h1.count(y) == h0.count(y) by {
                    assert(occ1.count(y) == occ0.count(y));
                }
                assert(h1 =~= h0);
            },
            Some(CoreOccupied::Allythread(entry)) => {
                let x = entry.claim.0;
                match freed.1 {
                    FreedReason::Concluded => {
                        assert forall|y: AllyId| #[trigger] h1.count(y) <= h0.count(y) by {
                            assert(occ1.count(y) <= occ0.count(y));
                        }
                        assert(h1.count(x) == 0) by {
                            assert(occ1.count(x) + 1 == occ0.count(x));
                            assert(h0.count(x) == h1.count(x) + 1);
                        }
                        lemma_claims_sound_fewer(h0, st.index, h1, st2.index);
                    },
                    FreedReason::TimedOut => {
                        lemma_queued_enqueue(st.queue, entry, n);
                        let q0 = queued_allies(st.queue.queue);
                        let q1 = queued_allies(st2.queue.queue);
                        assert forall|y: AllyId| #[trigger] h1.count(y) == h0.count(y) by {
                            assert(q1.count(y) == q0.count(y) + gone.count(y));
                        }
                        assert(h1 =~= h0);
                    },
                }
            },
        }
    }
}

/// Freeing cores keeps the held claims guarded.
pub proof fn lemma_free_all_claims(st: FreeState, list: Seq<(CoreIndex, FreedReason)>, n: u32, sched: Seq<CoreAssignment>)
    requires
        claims_sound(held_claims(st.queue.queue, sched, st.cores), st.index),
    ensures
        ({
            let st2 = free_all(st, list, n);
            claims_sound(held_claims(st2.queue.queue, sched, st2.cores), st2.index)
        }),
    decreases list.len(),
{
    if list.len() > 0 {
        lemma_free_all_claims(st, list.drop_last(), n, sched);
        lemma_free_step_claims(free_all(st, list.drop_last(), n), list.last(), n, sched);
    }
}

/// Scheduling moves claims from the queue onto the new assignments: the allies queued
/// before are those still queued and those newly scheduled.
pub proof fn lemma_schedule_upto_claims(ctx: ScheduleCtx, q: QueueView, k: int)
    ensures
        queued_allies(schedule_upto(ctx, q, k).1.queue).add(scheduled_allies(schedule_upto(ctx, q, k).0))
            =~= queued_allies(q.queue),
    decreases k,
{
    if k > 0 {
        lemma_schedule_upto_claims(ctx, q, k - 1);
        let acc = schedule_upto(ctx, q, k - 1);
        let now = schedule_upto(ctx, q, k);
        let c = k - 1;
        let before = queued_allies(acc.1.queue).add(scheduled_allies(acc.0));
        let after = queued_allies(now.1.queue).add(scheduled_allies(now.0));
        if ctx.cores[c] is Some || is_scheduled_core(ctx.scheduled, c) {
            assert(now == acc);
        } else if c < ctx.allychains.len() {
            lemma_scheduled_push(acc.0, chain_assignment(ctx, c));
            assert forall|y: AllyId| #[trigger] after.count(y) == before.count(y) by {}
        } else {
            let off = thread_offset(ctx, c);
            match next_on_core_spec(acc.1, off) {
                Some(entry) => {
                    let a = thread_assignment(ctx, c, entry);
                    lemma_scheduled_push(acc.0, a);
                    lemma_queued_take(acc.1, off);
                    let taken = acc.1.queue[position_on_core(acc.1.queue, off)].claim.claim.0;
                    assert(taken == entry.claim.0);
                    assert forall|y: AllyId| #[trigger] after.count(y) == before.count(y) by {
                        assert(queued_allies(now.1.queue).insert(taken).count(y) == queued_allies(acc.1.queue).count(y));
                    }
                },
                None => {
                    assert(now == acc);
                },
            }
        }
        assert(after =~= before);
    }
}

/// Returning scheduled claims to the queue queues no ally more often than it was queued or
/// scheduled before.
pub proof fn lemma_requeue_all_claims(
    q: QueueView,
    s: Seq<CoreAssignment>,
    live: Seq<AllyId>,
    max_retries: u32,
    n: u32,
    x: AllyId,
)
    ensures
        queued_allies(requeue_all(q, s, live, max_retries, n).queue).count(x)
            <= queued_allies(q.queue).count(x) + scheduled_allies(s).count(x),
    decreases s.len(),
{
    if s.len() > 0 {
        let init = s.drop_last();
        let a = s.last();
        lemma_requeue_all_claims(q, init, live, max_retries, n, x);
        let before = requeue_all(q, init, live, max_retries, n);
        let after = requeue_step(before, a, live, max_retries, n);
        match a.kind {
            AssignmentKind::Allythread(collator, retries) => {
                if live.contains(a.ally_id) && retries + 1 <= max_retries {
                    lemma_queued_enqueue(
                        before,
                        AllythreadEntry {
                            claim: AllythreadClaim(a.ally_id, collator),
                            retries: (retries + 1) as u32,
                        },
                        n,
                    );
                }
            },
            AssignmentKind::Allychain => {},
        }
        assert(queued_allies(after.queue).count(x) <= queued_allies(before.queue).count(x) + assigned_ally(a).count(x));
    }
}

} // verus!
