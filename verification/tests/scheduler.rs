use axia_runtime::primitives::{
    AllyId, AllythreadClaim, AllythreadEntry, CollatorId, CoreIndex, CoreOccupied, GroupIndex,
    GroupRotationInfo, HostConfiguration, ScheduledCore, ValidatorIndex,
};
use axia_runtime::scheduler::{
    AllythreadClaimQueue, AssignmentKind, CoreAssignment, FreedReason, Pallet, QueuedAllythread,
};

fn config(allythread_cores: u32) -> HostConfiguration {
    HostConfiguration {
        allythread_cores,
        allythread_retries: 1,
        scheduling_lookahead: 2,
        max_validators_per_core: None,
        group_rotation_frequency: 10,
        chain_availability_period: 3,
        thread_availability_period: 5,
        max_code_size: 100,
        max_head_data_size: 100,
    }
}

fn collator(b: u8) -> CollatorId {
    CollatorId([b; 32])
}

fn claim(id: u32, c: u8) -> AllythreadClaim {
    AllythreadClaim(AllyId(id), collator(c))
}

fn ids(v: &[u32]) -> Vec<AllyId> {
    v.iter().map(|&x| AllyId(x)).collect()
}

fn session_with(chains: &[u32], threads: &[u32], n_validators: usize, cfg: &HostConfiguration) -> Pallet {
    let mut p = Pallet::new();
    p.initializer_on_new_session(n_validators, cfg, &ids(chains), &ids(threads), 0);
    p
}

#[test]
fn groups_partition_validators() {
    let cfg = config(2);
    let p = session_with(&[1, 2, 3], &[], 11, &cfg);
    assert_eq!(p.availability_cores.len(), 5);
    assert_eq!(p.validator_groups.len(), 5);
    assert_eq!(p.validator_groups[0], vec![ValidatorIndex(0), ValidatorIndex(1), ValidatorIndex(2)]);
    assert_eq!(p.validator_groups[1], vec![ValidatorIndex(3), ValidatorIndex(4)]);
    assert_eq!(p.validator_groups[4], vec![ValidatorIndex(9), ValidatorIndex(10)]);
    let total: usize = p.validator_groups.iter().map(|g| g.len()).sum();
    assert_eq!(total, 11);
    assert_eq!(p.session_start_block, 1);
}

#[test]
fn fewer_validators_than_cores_leaves_empty_groups() {
    let cfg = config(2);
    let p = session_with(&[1, 2], &[], 3, &cfg);
    assert_eq!(p.validator_groups.len(), 4);
    assert_eq!(p.validator_groups[2], vec![ValidatorIndex(2)]);
    assert!(p.validator_groups[3].is_empty());
}

#[test]
fn no_validators_no_groups() {
    let cfg = config(2);
    let p = session_with(&[1], &[], 0, &cfg);
    assert!(p.validator_groups.is_empty());
    assert_eq!(p.availability_cores.len(), 3);
}

#[test]
fn max_validators_per_core_adds_cores() {
    let cfg = HostConfiguration { max_validators_per_core: Some(2), ..config(1) };
    let p = session_with(&[1], &[], 20, &cfg);
    assert_eq!(p.availability_cores.len(), 10);
    assert!(p.validator_groups.iter().all(|g| g.len() == 2));
    let cfg = HostConfiguration { max_validators_per_core: Some(0), ..config(1) };
    let p = session_with(&[1], &[], 20, &cfg);
    assert_eq!(p.availability_cores.len(), 2);
}

#[test]
fn add_claims_round_robin_and_reject_competing() {
    let cfg = config(2);
    let mut p = session_with(&[1, 2], &[10, 11, 12], 4, &cfg);
    let threads = ids(&[10, 11, 12]);
    p.add_allythread_claim(claim(10, 1), &cfg, &threads);
    p.add_allythread_claim(claim(11, 2), &cfg, &threads);
    // competing claim for 10
    p.add_allythread_claim(claim(10, 3), &cfg, &threads);
    // not an allythread
    p.add_allythread_claim(claim(99, 3), &cfg, &threads);
    p.add_allythread_claim(claim(12, 4), &cfg, &threads);
    let offsets: Vec<(u32, u32)> = p.allythread_queue.queue.iter().map(|q| (q.claim.claim.0 .0, q.core_offset)).collect();
    assert_eq!(offsets, vec![(10, 0), (11, 1), (12, 0)]);
    assert_eq!(p.allythread_claim_index, ids(&[10, 11, 12]));
    assert_eq!(p.allythread_queue.next_core_offset, 1);
}

#[test]
fn queue_is_bounded_by_lookahead() {
    let cfg = HostConfiguration { scheduling_lookahead: 1, ..config(1) };
    let mut p = session_with(&[], &[10, 11], 2, &cfg);
    let threads = ids(&[10, 11]);
    p.add_allythread_claim(claim(10, 1), &cfg, &threads);
    p.add_allythread_claim(claim(11, 1), &cfg, &threads);
    assert_eq!(p.allythread_queue.queue.len(), 1);
    assert_eq!(p.allythread_claim_index, ids(&[10]));
}

fn scheduled_setup() -> (Pallet, HostConfiguration, Vec<AllyId>, Vec<AllyId>) {
    let cfg = config(2);
    let chains = ids(&[1, 2]);
    let threads = ids(&[10, 11, 12]);
    let mut p = session_with(&[1, 2], &[10, 11, 12], 8, &cfg);
    p.add_allythread_claim(claim(10, 1), &cfg, &threads);
    p.add_allythread_claim(claim(11, 2), &cfg, &threads);
    p.add_allythread_claim(claim(12, 3), &cfg, &threads);
    p.schedule(&vec![], 1, &cfg, &chains);
    (p, cfg, chains, threads)
}

#[test]
fn schedule_assigns_free_cores() {
    let (p, _cfg, _chains, _threads) = scheduled_setup();
    assert_eq!(
        p.scheduled,
        vec![
            CoreAssignment { core: CoreIndex(0), ally_id: AllyId(1), kind: AssignmentKind::Allychain, group_idx: GroupIndex(0) },
            CoreAssignment { core: CoreIndex(1), ally_id: AllyId(2), kind: AssignmentKind::Allychain, group_idx: GroupIndex(1) },
            CoreAssignment {
                core: CoreIndex(2),
                ally_id: AllyId(10),
                kind: AssignmentKind::Allythread(collator(1), 0),
                group_idx: GroupIndex(2),
            },
            CoreAssignment {
                core: CoreIndex(3),
                ally_id: AllyId(11),
                kind: AssignmentKind::Allythread(collator(2), 0),
                group_idx: GroupIndex(3),
            },
        ]
    );
    assert_eq!(p.allythread_queue.queue.len(), 1);
    assert_eq!(p.allythread_queue.queue[0].claim.claim, claim(12, 3));
}

#[test]
fn schedule_does_not_reschedule() {
    let (mut p, cfg, chains, _threads) = scheduled_setup();
    let before = p.scheduled.clone();
    p.schedule(&vec![], 1, &cfg, &chains);
    assert_eq!(p.scheduled, before);
}

#[test]
fn schedule_without_groups_only_frees() {
    let cfg = config(1);
    let mut p = session_with(&[1], &[], 0, &cfg);
    p.schedule(&vec![], 1, &cfg, &ids(&[1]));
    assert!(p.scheduled.is_empty());
}

#[test]
fn occupied_moves_assignments_to_cores() {
    let (mut p, cfg, chains, _threads) = scheduled_setup();
    p.occupied(&vec![CoreIndex(0), CoreIndex(2)]);
    let remaining: Vec<u32> = p.scheduled.iter().map(|a| a.core.0).collect();
    assert_eq!(remaining, vec![1, 3]);
    assert_eq!(p.availability_cores[0], Some(CoreOccupied::Allychain));
    assert_eq!(
        p.availability_cores[2],
        Some(CoreOccupied::Allythread(AllythreadEntry { claim: claim(10, 1), retries: 0 }))
    );
    assert_eq!(p.availability_cores[1], None);
    assert_eq!(p.core_para(CoreIndex(0), &chains), Some(AllyId(1)));
    assert_eq!(p.core_para(CoreIndex(2), &chains), Some(AllyId(10)));
    assert_eq!(p.core_para(CoreIndex(1), &chains), None);
    assert_eq!(p.core_para(CoreIndex(9), &chains), None);
}

#[test]
fn freeing_a_timed_out_thread_requeues_it() {
    let (mut p, cfg, chains, _threads) = scheduled_setup();
    p.occupied(&vec![CoreIndex(0), CoreIndex(2)]);
    p.free_cores(&vec![(CoreIndex(2), FreedReason::TimedOut), (CoreIndex(0), FreedReason::Concluded)], &cfg);
    assert_eq!(p.availability_cores[0], None);
    assert_eq!(p.availability_cores[2], None);
    let last = p.allythread_queue.queue.last().unwrap();
    assert_eq!(last.claim, AllythreadEntry { claim: claim(10, 1), retries: 0 });
    // still indexed: the claim is queued again
    assert!(p.allythread_claim_index.contains(&AllyId(10)));
    assert_eq!(p.next_up_on_available(CoreIndex(0), &chains), Some(ScheduledCore { ally_id: AllyId(1), collator: None }));
}

#[test]
fn freeing_a_concluded_thread_opens_new_claims() {
    let (mut p, cfg, _chains, threads) = scheduled_setup();
    p.occupied(&vec![CoreIndex(2)]);
    p.free_cores(&vec![(CoreIndex(2), FreedReason::Concluded)], &cfg);
    assert!(!p.allythread_claim_index.contains(&AllyId(10)));
    p.add_allythread_claim(claim(10, 9), &cfg, &threads);
    assert!(p.allythread_claim_index.contains(&AllyId(10)));
}

#[test]
fn clear_requeues_scheduled_threads_with_a_retry() {
    let (mut p, cfg, _chains, threads) = scheduled_setup();
    let queued_before = p.allythread_queue.queue.len();
    p.clear(&cfg, &threads);
    assert!(p.scheduled.is_empty());
    let requeued: Vec<AllythreadEntry> = p.allythread_queue.queue[queued_before..].iter().map(|q| q.claim).collect();
    assert_eq!(
        requeued,
        vec![
            AllythreadEntry { claim: claim(10, 1), retries: 1 },
            AllythreadEntry { claim: claim(11, 2), retries: 1 },
        ]
    );
    // a second round exceeds the retries and drops the claims
    let chains = ids(&[1, 2]);
    p.schedule(&vec![], 1, &cfg, &chains);
    p.clear(&cfg, &threads);
    assert!(p.allythread_queue.queue.iter().all(|q| q.claim.retries <= cfg.allythread_retries));
}

#[test]
fn clear_drops_claims_of_dead_allythreads() {
    let (mut p, cfg, _chains, _threads) = scheduled_setup();
    let queued_before = p.allythread_queue.queue.len();
    p.clear(&cfg, &ids(&[11]));
    assert_eq!(p.allythread_queue.queue.len(), queued_before + 1);
    assert_eq!(p.allythread_queue.queue.last().unwrap().claim.claim, claim(11, 2));
}

#[test]
fn new_session_returns_threads_and_prunes() {
    let (mut p, cfg, chains, _threads) = scheduled_setup();
    p.occupied(&vec![CoreIndex(2), CoreIndex(3)]);
    // 11 is no longer an allythread
    p.initializer_on_new_session(8, &cfg, &chains, &ids(&[10, 12]), 20);
    assert!(p.availability_cores.iter().all(|c| c.is_none()));
    let queued: Vec<(u32, u32)> = p.allythread_queue.queue.iter().map(|q| (q.claim.claim.0 .0, q.core_offset)).collect();
    assert_eq!(queued, vec![(12, 0), (10, 1)]);
    assert_eq!(p.allythread_queue.next_core_offset, 0);
    assert_eq!(p.allythread_claim_index, ids(&[10, 12]));
    assert_eq!(p.session_start_block, 21);
}

#[test]
fn new_session_without_thread_cores_wipes_claims() {
    let (mut p, _cfg, chains, threads) = scheduled_setup();
    let cfg0 = config(0);
    p.initializer_on_new_session(8, &cfg0, &chains, &threads, 5);
    assert!(p.allythread_queue.queue.is_empty());
    assert_eq!(p.allythread_queue.next_core_offset, 0);
    assert!(p.allythread_claim_index.is_empty());
    assert_eq!(p.availability_cores.len(), 2);
}

#[test]
fn groups_rotate_over_cores() {
    let cfg = config(2);
    let p = session_with(&[1, 2], &[], 8, &cfg);
    assert_eq!(p.group_assigned_to_core(CoreIndex(0), 0, &cfg), None);
    assert_eq!(p.group_assigned_to_core(CoreIndex(0), 1, &cfg), Some(GroupIndex(0)));
    assert_eq!(p.group_assigned_to_core(CoreIndex(0), 11, &cfg), Some(GroupIndex(1)));
    assert_eq!(p.group_assigned_to_core(CoreIndex(3), 11, &cfg), Some(GroupIndex(0)));
    assert_eq!(p.group_assigned_to_core(CoreIndex(4), 11, &cfg), None);
    assert_eq!(p.group_validators(GroupIndex(1)), Some(vec![ValidatorIndex(2), ValidatorIndex(3)]));
    assert_eq!(p.group_validators(GroupIndex(4)), None);
    assert_eq!(
        p.group_rotation_info(15, &cfg),
        GroupRotationInfo { session_start_block: 1, group_rotation_frequency: 10, now: 15 }
    );
}

#[test]
fn availability_timeouts_only_after_rotation() {
    let (mut p, cfg, _chains, _threads) = scheduled_setup();
    p.occupied(&vec![CoreIndex(0), CoreIndex(2)]);
    // session starts at block 1; rotation every 10 blocks; periods 3 and 5
    assert!(p.availability_timeout_predicate(6, &cfg).is_none());
    let pred = p.availability_timeout_predicate(13, &cfg).unwrap();
    // allychain core: 2 blocks since rotation < 3
    assert!(pred.is_timed_out(CoreIndex(0), 10));
    assert!(!pred.is_timed_out(CoreIndex(0), 11));
    // allythread core
    assert!(pred.is_timed_out(CoreIndex(2), 8));
    assert!(!pred.is_timed_out(CoreIndex(2), 9));
    // unoccupied and out of range
    assert!(pred.is_timed_out(CoreIndex(1), 13));
    assert!(pred.is_timed_out(CoreIndex(40), 13));
    let pred = p.availability_timeout_predicate(15, &cfg).unwrap();
    assert!(!pred.is_timed_out(CoreIndex(0), 0));
    assert!(pred.is_timed_out(CoreIndex(2), 0));
}

#[test]
fn next_up_on_time_out_falls_back_to_occupant() {
    let (mut p, cfg, chains, _threads) = scheduled_setup();
    p.occupied(&vec![CoreIndex(3)]);
    // core 3 is thread offset 1; nothing queued for it
    assert_eq!(p.next_up_on_available(CoreIndex(3), &chains), None);
    assert_eq!(
        p.next_up_on_time_out(CoreIndex(3), &chains, &cfg),
        Some(ScheduledCore { ally_id: AllyId(11), collator: Some(collator(2)) })
    );
    // core 2 is thread offset 0; 12 is queued for it
    assert_eq!(
        p.next_up_on_available(CoreIndex(2), &chains),
        Some(ScheduledCore { ally_id: AllyId(12), collator: Some(collator(3)) })
    );
    assert_eq!(p.next_up_on_time_out(CoreIndex(1), &chains, &cfg), Some(ScheduledCore { ally_id: AllyId(2), collator: None }));
}

#[test]
fn next_up_on_time_out_drops_occupant_past_retries() {
    let (mut p, cfg, chains, _threads) = scheduled_setup();
    p.occupied(&vec![CoreIndex(3)]);
    p.availability_cores[3] = Some(CoreOccupied::Allythread(AllythreadEntry { claim: claim(11, 2), retries: 2 }));
    // allythread_retries is 1
    assert_eq!(p.next_up_on_time_out(CoreIndex(3), &chains, &cfg), None);
    p.availability_cores[3] = Some(CoreOccupied::Allythread(AllythreadEntry { claim: claim(11, 2), retries: 1 }));
    assert_eq!(
        p.next_up_on_time_out(CoreIndex(3), &chains, &cfg),
        Some(ScheduledCore { ally_id: AllyId(11), collator: Some(collator(2)) })
    );
}

#[test]
fn claim_queue_operations() {
    let mut q = AllythreadClaimQueue::default();
    q.enqueue_entry(AllythreadEntry { claim: claim(1, 1), retries: 0 }, 3);
    q.enqueue_entry(AllythreadEntry { claim: claim(2, 1), retries: 0 }, 3);
    q.enqueue_entry(AllythreadEntry { claim: claim(3, 1), retries: 0 }, 3);
    q.enqueue_entry(AllythreadEntry { claim: claim(4, 1), retries: 0 }, 3);
    assert_eq!(q.next_core_offset, 1);
    assert_eq!(q.queue[3], QueuedAllythread { claim: AllythreadEntry { claim: claim(4, 1), retries: 0 }, core_offset: 0 });
    assert_eq!(q.get_next_on_core(0).unwrap().claim, claim(1, 1));
    assert_eq!(q.take_next_on_core(0).unwrap().claim, claim(1, 1));
    assert_eq!(q.take_next_on_core(0).unwrap().claim, claim(4, 1));
    assert_eq!(q.take_next_on_core(0), None);
    assert_eq!(q.queue.len(), 2);
}

#[test]
fn core_assignment_helpers() {
    let a = CoreAssignment {
        core: CoreIndex(4),
        ally_id: AllyId(7),
        kind: AssignmentKind::Allythread(collator(5), 2),
        group_idx: GroupIndex(1),
    };
    assert_eq!(a.required_collator(), Some(collator(5)));
    assert_eq!(
        a.to_core_occupied(),
        CoreOccupied::Allythread(AllythreadEntry { claim: claim(7, 5), retries: 2 })
    );
    let b = CoreAssignment { kind: AssignmentKind::Allychain, ..a };
    assert_eq!(b.required_collator(), None);
    assert_eq!(b.to_core_occupied(), CoreOccupied::Allychain);
    assert_eq!(Pallet::new().initializer_initialize(3), 0);
}

/// Every allythread claim held (queued, scheduled or on a core) is indexed, and no ally
/// holds two.
fn assert_claims_guarded(p: &Pallet) {
    let mut held: Vec<AllyId> = p.allythread_queue.queue.iter().map(|q| q.claim.claim.0).collect();
    for a in &p.scheduled {
        if let AssignmentKind::Allythread(_, _) = a.kind {
            held.push(a.ally_id);
        }
    }
    for c in &p.availability_cores {
        if let Some(CoreOccupied::Allythread(e)) = c {
            held.push(e.claim.0);
        }
    }
    for (i, x) in held.iter().enumerate() {
        assert!(p.allythread_claim_index.contains(x));
        assert!(!held[i + 1..].contains(x));
    }
}

#[test]
fn an_ally_holds_one_claim_at_a_time() {
    let (mut p, cfg, chains, threads) = scheduled_setup();
    assert_claims_guarded(&p);
    let queued = p.allythread_queue.queue.clone();
    // 10 is scheduled: a second claim is refused
    p.add_allythread_claim(claim(10, 4), &cfg, &threads);
    assert_eq!(p.allythread_queue.queue, queued);
    p.occupied(&vec![CoreIndex(2)]);
    assert_claims_guarded(&p);
    // 10 occupies a core: still refused
    p.add_allythread_claim(claim(10, 4), &cfg, &threads);
    assert_eq!(p.allythread_queue.queue, queued);
    p.schedule(&vec![(CoreIndex(2), FreedReason::TimedOut)], 1, &cfg, &chains);
    assert_claims_guarded(&p);
    p.clear(&cfg, &threads);
    assert_claims_guarded(&p);
    p.initializer_on_new_session(8, &cfg, &chains, &threads, 9);
    assert_claims_guarded(&p);
}

#[test]
fn schedule_keeps_earlier_assignments_in_order() {
    let (mut p, cfg, chains, _threads) = scheduled_setup();
    p.occupied(&vec![CoreIndex(0), CoreIndex(2)]);
    let before = p.scheduled.clone();
    p.schedule(&vec![(CoreIndex(0), FreedReason::Concluded), (CoreIndex(2), FreedReason::Concluded)], 1, &cfg, &chains);
    let cores: Vec<u32> = p.scheduled.iter().map(|a| a.core.0).collect();
    assert_eq!(cores, vec![0, 1, 2, 3]);
    let kept: Vec<CoreAssignment> = p.scheduled.iter().filter(|a| before.contains(a)).cloned().collect();
    assert_eq!(kept, before);
    assert_eq!(p.scheduled[2].ally_id, AllyId(12));
}
