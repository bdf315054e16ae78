//! Scheduling of allychains and allythreads onto availability cores.
//!
//! Validators are partitioned into groups, one per availability core, and the
//! groups rotate over the cores. There is one core for each allychain, followed
//! by a number of cores that are multiplexed between allythreads; allythread
//! claims wait in a queue, each pre-assigned to one of those cores.
use vstd::prelude::*;
use vstd::multiset::Multiset;
use crate::claims::{
    assigned_ally, claims_sound, held_claims, lemma_claims_sound_fewer, lemma_free_all_claims, lemma_occupying_free, lemma_occupying_update,
    lemma_queued_concat, lemma_queued_enqueue, lemma_queued_filter, lemma_queued_rebalanced, lemma_queued_threads_in_cores, lemma_requeue_all_claims, lemma_schedule_upto_claims, lemma_scheduled_push, occupant_ally, occupying_allies, queued_allies, scheduled_allies,
};
use crate::primitives::{
    AllyId, AllythreadClaim, AllythreadEntry, BlockNumber, CollatorId, CoreIndex, CoreOccupied,
    GroupIndex, GroupRotationInfo, HostConfiguration, ScheduledCore, ValidatorIndex, Weight,
};

verus! {

broadcast use vstd::multiset::group_multiset_axioms;

/// An allythread entry in the queue, pre-assigned to a core.
#[derive(Clone, Copy, Debug, PartialEq, Eq)]
pub struct QueuedAllythread {
    /// The queued entry.
    pub claim: AllythreadEntry,
    /// The offset of the core, among the allythread cores, that it waits for.
    pub core_offset: u32,
}

/// The queue of allythread claims.
#[derive(Clone, Debug, PartialEq, Eq)]
pub struct AllythreadClaimQueue {
    /// The queued entries, oldest first.
    pub queue: Vec<QueuedAllythread>,
    /// The core offset the next entry is assigned to; below the number of allythread cores.
    pub next_core_offset: u32,
}

/// The mathematical value of an allythread claim queue.
pub struct QueueView {
    pub queue: Seq<QueuedAllythread>,
    pub next_core_offset: u32,
}

impl View for AllythreadClaimQueue {
    type V = QueueView;

    open spec fn view(&self) -> QueueView {
        QueueView { queue: self.queue@, next_core_offset: self.next_core_offset }
    }
}

/// The queue after `entry` is appended on the next core offset, out of `n` allythread cores.
pub open spec fn enqueue_spec(v: QueueView, entry: AllythreadEntry, n: u32) -> QueueView {
    QueueView {
        queue: v.queue.push(QueuedAllythread { claim: entry, core_offset: v.next_core_offset }),
        next_core_offset: ((v.next_core_offset + 1) % (n as int)) as u32,
    }
}

/// `i` is the position of the oldest entry of `q` waiting for core offset `off`.
pub open spec fn first_on_core(q: Seq<QueuedAllythread>, off: u32, i: int) -> bool {
    &&& 0 <= i < q.len()
    &&& q[i].core_offset == off
    &&& forall|j: int| 0 <= j < i ==> q[j].core_offset != off
}

/// Some entry of `q` waits for core offset `off`.
pub open spec fn has_on_core(q: Seq<QueuedAllythread>, off: u32) -> bool {
    exists|i: int| first_on_core(q, off, i)
}

/// The position of the oldest entry of `q` waiting for core offset `off`.
pub open spec fn position_on_core(q: Seq<QueuedAllythread>, off: u32) -> int {
    choose|i: int| first_on_core(q, off, i)
}

/// The oldest entry waiting for core offset `off`, if any.
pub open spec fn next_on_core_spec(v: QueueView, off: u32) -> Option<AllythreadEntry> {
    if has_on_core(v.queue, off) {
        Some(v.queue[position_on_core(v.queue, off)].claim)
    } else {
        None
    }
}

/// The queue after the oldest entry waiting for core offset `off` is taken out.
pub open spec fn take_spec(v: QueueView, off: u32) -> QueueView {
    if has_on_core(v.queue, off) {
        QueueView { queue: v.queue.remove(position_on_core(v.queue, off)), ..v }
    } else {
        v
    }
}

/// The queue is consistent with `n` allythread cores: with none, it is empty and its next
/// core offset is zero; otherwise the next core offset and every entry's core offset are
/// below `n`.
pub open spec fn queue_wf(q: QueueView, n: u32) -> bool {
    if n == 0 {
        q.queue.len() == 0 && q.next_core_offset == 0
    } else {
        &&& q.next_core_offset < n
        &&& forall|i: int| 0 <= i < q.queue.len() ==> #[trigger] q.queue[i].core_offset < n
    }
}

/// Enqueueing keeps the queue consistent with its cores.
pub proof fn lemma_enqueue_wf(q: QueueView, entry: AllythreadEntry, n: u32)
    requires
        queue_wf(q, n),
        n > 0,
    ensures
        queue_wf(enqueue_spec(q, entry, n), n),
{
    let q2 = enqueue_spec(q, entry, n);
    assert forall|i: int| 0 <= i < q2.queue.len() implies #[trigger] q2.queue[i].core_offset < n by {
        if i < q.queue.len() {
            assert(q2.queue[i] == q.queue[i]);
        }
    }
}

/// Taking an entry keeps the queue consistent with its cores.
pub proof fn lemma_take_wf(q: QueueView, off: u32, n: u32)
    requires
        queue_wf(q, n),
    ensures
        queue_wf(take_spec(q, off), n),
{
    if has_on_core(q.queue, off) {
        let p = position_on_core(q.queue, off);
        let q2 = take_spec(q, off);
        if n > 0 {
            assert forall|i: int| 0 <= i < q2.queue.len() implies #[trigger] q2.queue[i].core_offset < n by {
                if i < p {
                    assert(q2.queue[i] == q.queue[i]);
                } else {
                    assert(q2.queue[i] == q.queue[i + 1]);
                }
            }
        }
    }
}

/// At most one position is the first on a core offset.
pub proof fn lemma_first_on_core_unique(q: Seq<QueuedAllythread>, off: u32, i: int, j: int)
    requires
        first_on_core(q, off, i),
        first_on_core(q, off, j),
    ensures
        i == j,
{
}

impl AllythreadClaimQueue {
    /// An empty queue whose next entry goes to the first allythread core.
    pub fn default() -> (q: Self)
        ensures
            q@.queue == Seq::<QueuedAllythread>::empty(),
            q@.next_core_offset == 0,
    {
        AllythreadClaimQueue { queue: Vec::new(), next_core_offset: 0 }
    }

    /// Queue an entry on the next core offset, out of `n_allythread_cores` cores.
    pub fn enqueue_entry(&mut self, entry: AllythreadEntry, n_allythread_cores: u32)
        requires
            n_allythread_cores > 0,
            old(self).next_core_offset < u32::MAX,
        ensures
            final(self)@ == enqueue_spec(old(self)@, entry, n_allythread_cores),
    {
        let core_offset = self.next_core_offset;
        self.next_core_offset = (self.next_core_offset + 1) % n_allythread_cores;
        self.queue.push(QueuedAllythread { claim: entry, core_offset });
    }

    /// The position of the oldest entry waiting for `core_offset`, if any.
    fn position(&self, core_offset: u32) -> (pos: Option<usize>)
        ensures
            match pos {
                Some(i) => first_on_core(self.queue@, core_offset, i as int),
                None => !has_on_core(self.queue@, core_offset),
            },
    {
        let mut i: usize = 0;
        while i < self.queue.len()
            invariant
                i <= self.queue.len(),
                forall|j: int| 0 <= j < i ==> self.queue@[j].core_offset != core_offset,
            decreases self.queue.len() - i,
        {
            if self.queue[i].core_offset == core_offset {
                return Some(i);
            }
            i = i + 1;
        }
        None
    }

    /// Take the oldest entry waiting for `core_offset`, if any.
    pub fn take_next_on_core(&mut self, core_offset: u32) -> (entry: Option<AllythreadEntry>)
        ensures
            entry == next_on_core_spec(old(self)@, core_offset),
            final(self)@ == take_spec(old(self)@, core_offset),
    {
        match self.position(core_offset) {
            Some(i) => {
                proof {
                    lemma_first_on_core_unique(
                        self.queue@,
                        core_offset,
                        i as int,
                        position_on_core(self.queue@, core_offset),
                    );
                }
                let queued = self.queue.remove(i);
                Some(queued.claim)
            },
            None => None,
        }
    }

    /// The oldest entry waiting for `core_offset`, if any.
    pub fn get_next_on_core(&self, core_offset: u32) -> (entry: Option<AllythreadEntry>)
        ensures
            entry == next_on_core_spec(self@, core_offset),
    {
        match self.position(core_offset) {
            Some(i) => {
                proof {
                    lemma_first_on_core_unique(
                        self.queue@,
                        core_offset,
                        i as int,
                        position_on_core(self.queue@, core_offset),
                    );
                }
                Some(self.queue[i].claim)
            },
            None => None,
        }
    }
}

/// Why a core was freed.
#[derive(Clone, Copy, Debug, PartialEq, Eq)]
pub enum FreedReason {
    /// The core's work concluded and the block assigned to it is available.
    Concluded,
    /// The core's work timed out.
    TimedOut,
}

/// The kind of an assignment.
#[derive(Clone, Copy, Debug, PartialEq, Eq)]
pub enum AssignmentKind {
    /// An allychain.
    Allychain,
    /// An allythread, with the collator that must collate and the retries so far.
    Allythread(CollatorId, u32),
}

/// How a free core is scheduled to be assigned.
#[derive(Clone, Copy, Debug, PartialEq, Eq)]
pub struct CoreAssignment {
    /// The core that is assigned.
    pub core: CoreIndex,
    /// The ally assigned to the core.
    pub ally_id: AllyId,
    /// The kind of the assignment.
    pub kind: AssignmentKind,
    /// The validator group assigned to the core.
    pub group_idx: GroupIndex,
}

/// What occupies a core once `a` is backed on it.
pub open spec fn core_occupied_spec(a: CoreAssignment) -> CoreOccupied {
    match a.kind {
        AssignmentKind::Allychain => CoreOccupied::Allychain,
        AssignmentKind::Allythread(collator, retries) => CoreOccupied::Allythread(
            AllythreadEntry { claim: AllythreadClaim(a.ally_id, collator), retries },
        ),
    }
}

impl CoreAssignment {
    /// The collator required to collate this block, if any.
    pub fn required_collator(&self) -> (collator: Option<CollatorId>)
        ensures
            collator == (match self.kind {
                AssignmentKind::Allychain => None,
                AssignmentKind::Allythread(id, _) => Some(id),
            }),
    {
        match self.kind {
            AssignmentKind::Allychain => None,
            AssignmentKind::Allythread(id, _) => Some(id),
        }
    }

    /// What occupies the core once this assignment is backed.
    pub fn to_core_occupied(&self) -> (occupied: CoreOccupied)
        ensures
            occupied == core_occupied_spec(*self),
    {
        match self.kind {
            AssignmentKind::Allychain => CoreOccupied::Allychain,
            AssignmentKind::Allythread(collator, retries) => CoreOccupied::Allythread(
                AllythreadEntry { claim: AllythreadClaim(self.ally_id, collator), retries },
            ),
        }
    }
}

/// The state of the scheduler.
#[derive(Clone, Debug)]
pub struct Pallet {
    /// The validator groups, one per core; indices are into the active validators.
    pub validator_groups: Vec<Vec<ValidatorIndex>>,
    /// Upcoming allythread claims and the cores they are mapped onto.
    pub allythread_queue: AllythreadClaimQueue,
    /// One entry per availability core; `None` where the core is not occupied.
    /// The i'th allychain owns the i'th core; the remaining cores are allythread multiplexers.
    pub availability_cores: Vec<Option<CoreOccupied>>,
    /// The allythreads that have a claim queued or occupying a core, sorted ascending.
    pub allythread_claim_index: Vec<AllyId>,
    /// The first block of the current session.
    pub session_start_block: BlockNumber,
    /// Cores that are free but scheduled to be occupied, sorted ascending by core index.
    pub scheduled: Vec<CoreAssignment>,
}

/// The group assigned to `core` at block `at`, given the session start, the rotation
/// frequency and the number of groups.
pub open spec fn group_for_core_spec(
    core: CoreIndex,
    at: BlockNumber,
    session_start: BlockNumber,
    frequency: BlockNumber,
    n_groups: int,
) -> Option<GroupIndex> {
    if at < session_start || core.0 >= n_groups {
        None
    } else {
        Some(GroupIndex((((core.0 + (at - session_start) / (frequency as int)) as int) % n_groups) as u32))
    }
}

/// Groups rotate: `frequency` blocks later, every core has the next group, cyclically.
pub proof fn lemma_group_rotation(core: CoreIndex, at: BlockNumber, session_start: BlockNumber, frequency: BlockNumber, n_groups: int)
    requires
        frequency > 0,
        at >= session_start,
        at + frequency <= u32::MAX,
        core.0 < n_groups,
        n_groups <= u32::MAX,
    ensures
        group_for_core_spec(core, (at + frequency) as u32, session_start, frequency, n_groups)
            == Some(GroupIndex((((group_for_core_spec(core, at, session_start, frequency, n_groups)->Some_0).0 + 1) % n_groups) as u32)),
{
    let d = at - session_start;
    vstd::arithmetic::div_mod::lemma_div_plus_one(d, frequency as int);
    assert((at + frequency - session_start) / (frequency as int) == d / (frequency as int) + 1);
    let x = core.0 + d / (frequency as int);
    vstd::arithmetic::div_mod::lemma_add_mod_noop(x, 1, n_groups);
    if n_groups > 1 {
        vstd::arithmetic::div_mod::lemma_small_mod(1, n_groups as nat);
    } else {
        vstd::arithmetic::div_mod::lemma_small_mod(0, 1);
        assert(x % n_groups == 0) by (nonlinear_arith)
            requires n_groups == 1;
        assert((x + 1) % n_groups == 0) by (nonlinear_arith)
            requires n_groups == 1;
    }
    assert(x % n_groups < n_groups) by (nonlinear_arith)
        requires n_groups > 0;
    assert(x % n_groups >= 0) by (nonlinear_arith)
        requires n_groups > 0;
}

/// At any block, different cores have different groups.
pub proof fn lemma_groups_distinct(c1: CoreIndex, c2: CoreIndex, at: BlockNumber, session_start: BlockNumber, frequency: BlockNumber, n_groups: int)
    requires
        frequency > 0,
        at >= session_start,
        c1.0 < n_groups,
        c2.0 < n_groups,
        n_groups <= u32::MAX,
        c1 != c2,
    ensures
        group_for_core_spec(c1, at, session_start, frequency, n_groups)
            != group_for_core_spec(c2, at, session_start, frequency, n_groups),
{
    let r = (at - session_start) / (frequency as int);
    assert(r >= 0) by (nonlinear_arith)
        requires
            at >= session_start,
            frequency > 0,
            r == (at - session_start) / (frequency as int),
    ;
    let x1 = c1.0 + r;
    let x2 = c2.0 + r;
    let m1 = x1 % n_groups;
    let m2 = x2 % n_groups;
    assert(0 <= m1 < n_groups && 0 <= m2 < n_groups) by (nonlinear_arith)
        requires
            n_groups > 0,
            m1 == x1 % n_groups,
            m2 == x2 % n_groups,
    ;
    if m1 == m2 {
        vstd::arithmetic::div_mod::lemma_fundamental_div_mod(x1, n_groups);
        vstd::arithmetic::div_mod::lemma_fundamental_div_mod(x2, n_groups);
        let q1 = x1 / n_groups;
        let q2 = x2 / n_groups;
        assert(c1.0 - c2.0 == (q1 - q2) * n_groups) by (nonlinear_arith)
            requires
                x1 == n_groups * q1 + m1,
                x2 == n_groups * q2 + m1,
                x1 - x2 == c1.0 - c2.0,
        ;
        assert(c1.0 == c2.0) by (nonlinear_arith)
            requires
                c1.0 - c2.0 == (q1 - q2) * n_groups,
                0 <= c1.0 < n_groups,
                0 <= c2.0 < n_groups,
        ;
    }
}

/// In a consistent scheduler state, the groups assigned to cores at a block are one to one,
/// and `frequency` blocks later every core has the next group, cyclically.
pub proof fn lemma_pallet_group_rotation(p: Pallet, config: HostConfiguration, c1: CoreIndex, c2: CoreIndex, at: BlockNumber)
    requires
        p.wf(config),
        config.group_rotation_frequency > 0,
        at >= p.session_start_block,
        at + config.group_rotation_frequency <= u32::MAX,
        c1.0 < p.validator_groups@.len(),
        c2.0 < p.validator_groups@.len(),
    ensures
        ({
            let f = config.group_rotation_frequency;
            let n = p.validator_groups@.len() as int;
            let g1 = group_for_core_spec(c1, at, p.session_start_block, f, n);
            &&& c1 != c2 ==> g1 != group_for_core_spec(c2, at, p.session_start_block, f, n)
            &&& group_for_core_spec(c1, (at + f) as u32, p.session_start_block, f, n)
                == Some(GroupIndex((((g1->Some_0).0 + 1) % n) as u32))
        }),
{
    let f = config.group_rotation_frequency;
    let n = p.validator_groups@.len() as int;
    assert(n <= u32::MAX);
    if c1 != c2 {
        lemma_groups_distinct(c1, c2, at, p.session_start_block, f, n);
    }
    lemma_group_rotation(c1, at, p.session_start_block, f, n);
}

/// Whether an occupied core that has been pending since `pending_since` should time out.
pub open spec fn timed_out_spec(p: AvailabilityTimeoutPredicate, core: CoreIndex, pending_since: BlockNumber) -> bool {
    if core.0 >= p.availability_cores@.len() {
        true
    } else {
        match p.availability_cores@[core.0 as int] {
            None => true,
            Some(CoreOccupied::Allychain) => {
                if p.blocks_since_last_rotation >= p.chain_availability_period {
                    false
                } else {
                    saturating_sub_spec(p.now, pending_since) >= p.chain_availability_period
                }
            },
            Some(CoreOccupied::Allythread(_)) => {
                if p.blocks_since_last_rotation >= p.thread_availability_period {
                    false
                } else {
                    saturating_sub_spec(p.now, pending_since) >= p.thread_availability_period
                }
            },
        }
    }
}

/// `a - b`, or zero where `b` exceeds `a`.
pub open spec fn saturating_sub_spec(a: u32, b: u32) -> u32 {
    if a >= b { (a - b) as u32 } else { 0 }
}

fn saturating_sub_u32(a: u32, b: u32) -> (r: u32)
    ensures
        r == saturating_sub_spec(a, b),
{
    if a >= b { a - b } else { 0 }
}

/// Decides which occupied cores time out, on a snapshot of the availability cores.
#[derive(Clone, Debug)]
pub struct AvailabilityTimeoutPredicate {
    /// The availability cores when the predicate was made.
    pub availability_cores: Vec<Option<CoreOccupied>>,
    /// The current block.
    pub now: BlockNumber,
    /// Blocks since the last group rotation.
    pub blocks_since_last_rotation: BlockNumber,
    /// How long an allychain candidate may stay pending availability.
    pub chain_availability_period: BlockNumber,
    /// How long an allythread candidate may stay pending availability.
    pub thread_availability_period: BlockNumber,
}

impl AvailabilityTimeoutPredicate {
    /// Whether the core at `core_index`, occupied since `pending_since`, times out.
    pub fn is_timed_out(&self, core_index: CoreIndex, pending_since: BlockNumber) -> (r: bool)
        ensures
            r == timed_out_spec(*self, core_index, pending_since),
    {
        if core_index.0 as usize >= self.availability_cores.len() {
            return true;
        }
        match self.availability_cores[core_index.0 as usize] {
            None => true,
            Some(CoreOccupied::Allychain) => {
                if self.blocks_since_last_rotation >= self.chain_availability_period {
                    false
                } else {
                    saturating_sub_u32(self.now, pending_since) >= self.chain_availability_period
                }
            },
            Some(CoreOccupied::Allythread(_)) => {
                if self.blocks_since_last_rotation >= self.thread_availability_period {
                    false
                } else {
                    saturating_sub_u32(self.now, pending_since) >= self.thread_availability_period
                }
            },
        }
    }
}

fn copy_cores(cores: &Vec<Option<CoreOccupied>>) -> (copy: Vec<Option<CoreOccupied>>)
    ensures
        copy@ == cores@,
{
    let mut copy: Vec<Option<CoreOccupied>> = Vec::new();
    let mut i: usize = 0;
    while i < cores.len()
        invariant
            i <= cores.len(),
            copy@ == cores@.take(i as int),
        decreases cores.len() - i,
    {
        copy.push(cores[i]);
        i = i + 1;
        proof {
            assert(copy@ =~= cores@.take(i as int));
        }
    }
    proof {
        assert(cores@.take(i as int) =~= cores@);
    }
    copy
}

/// The ids are strictly ascending, so each occurs once.
pub open spec fn strictly_sorted_ids(s: Seq<AllyId>) -> bool {
    forall|i: int, j: int| 0 <= i < j < s.len() ==> s[i].0 < s[j].0
}

/// The assignments are strictly ascending by core index, so each core occurs once.
pub open spec fn strictly_sorted_cores(s: Seq<CoreAssignment>) -> bool {
    forall|i: int, j: int| 0 <= i < j < s.len() ==> s[i].core.0 < s[j].core.0
}

/// Whether `id` occurs in `v`.
pub fn contains_ally(v: &Vec<AllyId>, id: AllyId) -> (r: bool)
    ensures
        r == v@.contains(id),
{
    let mut i: usize = 0;
    while i < v.len()
        invariant
            i <= v.len(),
            forall|k: int| 0 <= k < i ==> v@[k] != id,
        decreases v.len() - i,
    {
        if v[i].0 == id.0 {
            proof {
                assert(v@[i as int] == id);
            }
            return true;
        }
        i = i + 1;
    }
    false
}

/// Removes the first occurrence of `id` from the index, where present; a strictly sorted
/// index stays strictly sorted and loses exactly `id`.
fn remove_id(index: &mut Vec<AllyId>, id: AllyId)
    ensures
        strictly_sorted_ids(old(index)@) ==> {
            &&& strictly_sorted_ids(final(index)@)
            &&& forall|x: AllyId| #[trigger] final(index)@.contains(x) <==> (old(index)@.contains(x) && x != id)
        },
{
    let ghost sorted = strictly_sorted_ids(index@);
    let mut i: usize = 0;
    while i < index.len()
        invariant
            index@ == old(index)@,
            sorted == strictly_sorted_ids(index@),
            i <= index.len(),
            forall|k: int| 0 <= k < i ==> index@[k] != id,
        decreases index.len() - i,
    {
        if index[i].0 == id.0 {
            let ghost before = index@;
            proof {
                assert(before[i as int] == id);
            }
            index.remove(i);
            proof {
                if sorted {
                    assert forall|x: AllyId| index@.contains(x) <==> (before.contains(x) && x != id) by {
                        if index@.contains(x) {
                            let k = choose|k: int| 0 <= k < index@.len() && index@[k] == x;
                            if k < i {
                                assert(before[k] == x);
                            } else {
                                assert(before[k + 1] == x);
                                assert(before[k + 1].0 > before[i as int].0);
                            }
                            assert(before.contains(x));
                        }
                        if before.contains(x) && x != id {
                            let k = choose|k: int| 0 <= k < before.len() && before[k] == x;
                            if k < i {
                                assert(index@[k] == x);
                            } else {
                                assert(k != i);
                                assert(index@[k - 1] == x);
                            }
                            assert(index@.contains(x));
                        }
                    }
                }
            }
            return;
        }
        i = i + 1;
    }
}

/// Inserting `id` at position `i` of a strictly sorted sequence, where everything before
/// `i` is below `id` and everything from `i` on is above it, keeps it strictly sorted and
/// adds exactly `id`.
proof fn lemma_insert_sorted(before: Seq<AllyId>, i: int, id: AllyId)
    requires
        strictly_sorted_ids(before),
        0 <= i <= before.len(),
        forall|k: int| 0 <= k < i ==> before[k].0 < id.0,
        forall|k: int| i <= k < before.len() ==> before[k].0 > id.0,
    ensures
        strictly_sorted_ids(before.insert(i, id)),
        forall|x: AllyId| #[trigger] before.insert(i, id).contains(x) <==> (before.contains(x) || x == id),
{
    let after = before.insert(i, id);
    assert forall|x: AllyId| after.contains(x) <==> (before.contains(x) || x == id) by {
        if after.contains(x) {
            let k = choose|k: int| 0 <= k < after.len() && after[k] == x;
            if k < i {
                assert(before[k] == x);
            } else if k > i {
                assert(before[k - 1] == x);
            }
        }
        if before.contains(x) {
            let k = choose|k: int| 0 <= k < before.len() && before[k] == x;
            if k < i {
                assert(after[k] == x);
            } else {
                assert(after[k + 1] == x);
            }
        }
        if x == id {
            assert(after[i] == x);
        }
    }
    assert forall|a: int, b: int| 0 <= a < b < after.len() implies after[a].0 < after[b].0 by {
        if b < i {
            assert(after[a] == before[a] && after[b] == before[b]);
        } else if b == i {
            assert(after[a] == before[a]);
        } else if a < i {
            assert(after[a] == before[a] && after[b] == before[b - 1]);
        } else if a == i {
            assert(after[b] == before[b - 1]);
        } else {
            assert(after[a] == before[a - 1] && after[b] == before[b - 1]);
        }
    }
}

/// Inserts `id` into a strictly sorted index, unless it is there already; returns whether
/// it was there.
fn insert_id(index: &mut Vec<AllyId>, id: AllyId) -> (present: bool)
    requires
        strictly_sorted_ids(old(index)@),
    ensures
        present == old(index)@.contains(id),
        present ==> final(index)@ == old(index)@,
        strictly_sorted_ids(final(index)@),
        forall|x: AllyId| #[trigger] final(index)@.contains(x) <==> (old(index)@.contains(x) || x == id),
{
    let mut i: usize = 0;
    while i < index.len() && index[i].0 < id.0
        invariant
            index@ == old(index)@,
            i <= index.len(),
            strictly_sorted_ids(index@),
            forall|k: int| 0 <= k < i ==> index@[k].0 < id.0,
        decreases index.len() - i,
    {
        i = i + 1;
    }
    if i < index.len() && index[i].0 == id.0 {
        proof {
            assert(index@[i as int] == id);
            assert(index@.contains(id));
        }
        return true;
    }
    let ghost before = index@;
    proof {
        assert(before == old(index)@);
        assert forall|k: int| i <= k < before.len() implies before[k].0 > id.0 by {
            if k > i {
                assert(before[k].0 > before[i as int].0);
            }
        }
        assert forall|k: int| 0 <= k < before.len() implies before[k] != id by {
            if k >= i {
                assert(before[k].0 > id.0);
            }
        }
    }
    index.insert(i, id);
    proof {
        lemma_insert_sorted(before, i as int, id);
        assert(index@ == before.insert(i as int, id));
        assert(forall|x: AllyId| index@.contains(x) <==> (before.contains(x) || x == id));
        assert(!before.contains(id));
    }
    false
}

/// The first validator index of group `g`, where every group holds `base` validators and
/// the first `larger` groups one more.
pub open spec fn group_start(g: int, base: int, larger: int) -> int {
    g * base + if g < larger { g } else { larger }
}

/// The number of validators in group `g`.
pub open spec fn group_size(g: int, base: int, larger: int) -> int {
    if g < larger { base + 1 } else { base }
}

/// `groups` partitions validators `0..n_validators` into `n_groups` consecutive groups whose
/// sizes differ by at most one, the larger groups first.
pub open spec fn groups_spec(groups: Seq<Vec<ValidatorIndex>>, n_validators: int, n_groups: int) -> bool {
    let base = n_validators / n_groups;
    let larger = n_validators % n_groups;
    &&& groups.len() == n_groups
    &&& forall|g: int| 0 <= g < n_groups ==> #[trigger] groups[g]@.len() == group_size(g, base, larger)
    &&& forall|g: int, j: int| 0 <= g < n_groups && 0 <= j < group_size(g, base, larger)
        ==> #[trigger] groups[g]@[j] == ValidatorIndex((group_start(g, base, larger) + j) as u32)
}

/// Consecutive groups are adjacent and stay within `0..n`.
pub proof fn lemma_group_layout(n: int, c: int, g: int)
    requires
        n >= 0,
        c > 0,
        0 <= g < c,
    ensures
        group_start(0, n / c, n % c) == 0,
        group_start(g + 1, n / c, n % c) == group_start(g, n / c, n % c) + group_size(g, n / c, n % c),
        group_start(g, n / c, n % c) + group_size(g, n / c, n % c) <= n,
        group_start(c, n / c, n % c) == n,
{
    let base = n / c;
    let larger = n % c;
    assert(n == c * base + larger) by (nonlinear_arith)
        requires
            c > 0,
            base == n / c,
            larger == n % c,
    ;
    assert(0 <= larger < c) by (nonlinear_arith)
        requires
            c > 0,
            larger == n % c,
    ;
    assert(base >= 0) by (nonlinear_arith)
        requires
            c > 0,
            n >= 0,
            base == n / c,
    ;
    assert((g + 1) * base == g * base + base) by (nonlinear_arith);
    assert((g + 1) * base <= c * base) by (nonlinear_arith)
        requires
            g + 1 <= c,
            base >= 0,
    ;
    assert(0 * base == 0) by (nonlinear_arith);
}

/// Group starts grow with the group index.
proof fn lemma_group_start_mono(n: int, c: int, a: int, b: int)
    requires
        n >= 0,
        c > 0,
        0 <= a <= b <= c,
    ensures
        group_start(a, n / c, n % c) <= group_start(b, n / c, n % c),
    decreases b - a,
{
    if a < b {
        lemma_group_layout(n, c, a);
        lemma_group_start_mono(n, c, a + 1, b);
    }
}

/// Some group from `k` on holds validator `v`, where `v` is at or past the start of group `k`.
proof fn lemma_find_group(n: int, c: int, v: int, k: int) -> (g: int)
    requires
        n >= 0,
        c > 0,
        0 <= k < c,
        group_start(k, n / c, n % c) <= v < n,
    ensures
        k <= g < c,
        group_start(g, n / c, n % c) <= v < group_start(g, n / c, n % c) + group_size(g, n / c, n % c),
    decreases c - k,
{
    lemma_group_layout(n, c, k);
    if v < group_start(k, n / c, n % c) + group_size(k, n / c, n % c) {
        k
    } else {
        lemma_group_layout(n, c, c - 1);
        if k + 1 == c {
            assert(group_start(c, n / c, n % c) == n);
            k
        } else {
            lemma_find_group(n, c, v, k + 1)
        }
    }
}

/// Validator groups partition the validators: where the validator indices fit their type,
/// every validator `v` of `0..n` is in exactly one group, at exactly one position, and
/// groups differ in size by at most one.
pub proof fn lemma_groups_partition(groups: Seq<Vec<ValidatorIndex>>, n: int, c: int, v: int)
    requires
        c > 0,
        0 <= v < n,
        n <= u32::MAX + 1,
        groups_spec(groups, n, c),
    ensures
        exists|g: int, j: int| 0 <= g < c && 0 <= j < groups[g]@.len() && groups[g]@[j] == ValidatorIndex(v as u32),
        forall|g1: int, j1: int, g2: int, j2: int|
            0 <= g1 < c && 0 <= j1 < groups[g1]@.len() && groups[g1]@[j1] == ValidatorIndex(v as u32)
            && 0 <= g2 < c && 0 <= j2 < groups[g2]@.len() && groups[g2]@[j2] == ValidatorIndex(v as u32)
            ==> g1 == g2 && j1 == j2,
        forall|g1: int, g2: int| 0 <= g1 < c && 0 <= g2 < c ==> groups[g1]@.len() <= groups[g2]@.len() + 1,
{
    let base = n / c;
    let larger = n % c;
    lemma_group_layout(n, c, 0);
    let g = lemma_find_group(n, c, v, 0);
    let j = v - group_start(g, base, larger);
    assert(groups[g]@[j] == ValidatorIndex((group_start(g, base, larger) + j) as u32));
    assert forall|g1: int, j1: int, g2: int, j2: int|
        0 <= g1 < c && 0 <= j1 < groups[g1]@.len() && groups[g1]@[j1] == ValidatorIndex(v as u32)
        && 0 <= g2 < c && 0 <= j2 < groups[g2]@.len() && groups[g2]@[j2] == ValidatorIndex(v as u32)
        implies g1 == g2 && j1 == j2 by {
        lemma_group_layout(n, c, g1);
        lemma_group_layout(n, c, g2);
        assert(groups[g1]@[j1] == ValidatorIndex((group_start(g1, base, larger) + j1) as u32));
        assert(groups[g2]@[j2] == ValidatorIndex((group_start(g2, base, larger) + j2) as u32));
        assert(group_start(g1, base, larger) + j1 == v);
        assert(group_start(g2, base, larger) + j2 == v);
        if g1 < g2 {
            lemma_group_start_mono(n, c, g1 + 1, g2);
        } else if g2 < g1 {
            lemma_group_start_mono(n, c, g2 + 1, g1);
        }
    }
    assert forall|g1: int, g2: int| 0 <= g1 < c && 0 <= g2 < c implies groups[g1]@.len() <= groups[g2]@.len() + 1 by {
        assert(groups[g1]@.len() == group_size(g1, base, larger));
        assert(groups[g2]@.len() == group_size(g2, base, larger));
    }
}

/// `idx` picks, in strictly increasing order, positions of `b` that hold the elements of `a`.
pub open spec fn embeds(a: Seq<CoreAssignment>, b: Seq<CoreAssignment>, idx: Seq<int>) -> bool {
    &&& idx.len() == a.len()
    &&& forall|k: int| 0 <= k < idx.len() ==> 0 <= #[trigger] idx[k] < b.len() && b[idx[k]] == a[k]
    &&& forall|k: int, l: int| 0 <= k < l < idx.len() ==> idx[k] < idx[l]
}

/// `a` is a subsequence of `b`: its elements occur in `b` in the same order.
pub open spec fn is_subsequence(a: Seq<CoreAssignment>, b: Seq<CoreAssignment>) -> bool {
    exists|idx: Seq<int>| #[trigger] embeds(a, b, idx)
}

/// Every schedule is a subsequence of itself.
pub proof fn lemma_subsequence_refl(a: Seq<CoreAssignment>)
    ensures
        is_subsequence(a, a),
{
    let idx = Seq::new(a.len(), |k: int| k);
    assert(embeds(a, a, idx));
}

/// Merges two schedules, each strictly ascending by core and for different cores, into one
/// strictly ascending schedule that holds exactly their assignments.
fn merge_assignments(a: &Vec<CoreAssignment>, b: &Vec<CoreAssignment>) -> (m: Vec<CoreAssignment>)
    requires
        strictly_sorted_cores(a@),
        strictly_sorted_cores(b@),
        forall|j: int| 0 <= j < b@.len() ==> !is_scheduled_core(a@, b@[j].core.0 as int),
    ensures
        strictly_sorted_cores(m@),
        forall|x: CoreAssignment| #[trigger] m@.contains(x) <==> (a@.contains(x) || b@.contains(x)),
        is_subsequence(a@, m@),
        scheduled_allies(m@) =~= scheduled_allies(a@).add(scheduled_allies(b@)),
{
    let mut m: Vec<CoreAssignment> = Vec::new();
    let mut i: usize = 0;
    let mut j: usize = 0;
    let ghost mut idx: Seq<int> = Seq::empty();
    proof {
        assert(a@.take(0) =~= Seq::<CoreAssignment>::empty());
        assert(b@.take(0) =~= Seq::<CoreAssignment>::empty());
        assert(scheduled_allies(m@) =~= scheduled_allies(a@.take(0)).add(scheduled_allies(b@.take(0))));
    }
    while i < a.len() || j < b.len()
        invariant
            embeds(a@.take(i as int), m@, idx),
            scheduled_allies(m@) =~= scheduled_allies(a@.take(i as int)).add(scheduled_allies(b@.take(j as int))),
            strictly_sorted_cores(a@),
            strictly_sorted_cores(b@),
            forall|t: int| 0 <= t < b@.len() ==> !is_scheduled_core(a@, b@[t].core.0 as int),
            i <= a@.len(),
            j <= b@.len(),
            strictly_sorted_cores(m@),
            forall|x: CoreAssignment| m@.contains(x) <==> (a@.take(i as int).contains(x) || b@.take(j as int).contains(x)),
            forall|t: int| 0 <= t < m@.len() && i < a@.len() ==> m@[t].core.0 < a@[i as int].core.0,
            forall|t: int| 0 <= t < m@.len() && j < b@.len() ==> m@[t].core.0 < b@[j as int].core.0,
        decreases a@.len() + b@.len() - i - j,
    {
        let take_a = if i < a.len() && j < b.len() {
            a[i].core.0 < b[j].core.0
        } else {
            i < a.len()
        };
        let ghost m0 = m@;
        if take_a {
            let x = a[i];
            proof {
                if j < b@.len() {
                    assert(x.core.0 != b@[j as int].core.0) by {
                        if x.core.0 == b@[j as int].core.0 {
                            assert(is_scheduled_core(a@, b@[j as int].core.0 as int));
                        }
                    }
                }
            }
            m.push(x);
            proof {
                idx = idx.push(m0.len() as int);
            }
            i = i + 1;
            proof {
                assert(a@.take(i as int) =~= a@.take(i - 1).push(x));
                lemma_scheduled_push(m0, x);
                lemma_scheduled_push(a@.take(i - 1), x);
                assert(scheduled_allies(m@) =~= scheduled_allies(a@.take(i as int)).add(scheduled_allies(b@.take(j as int))));
                assert forall|k: int| 0 <= k < idx.len() implies 0 <= #[trigger] idx[k] < m@.len() && m@[idx[k]] == a@.take(i as int)[k] by {
                    if k < idx.len() - 1 {
                        assert(a@.take(i as int)[k] == a@.take(i - 1)[k]);
                    }
                }
                assert forall|y: CoreAssignment| m@.contains(y) <==> (a@.take(i as int).contains(y) || b@.take(j as int).contains(y)) by {
                    if m@.contains(y) {
                        let t = choose|t: int| 0 <= t < m@.len() && m@[t] == y;
                        if t < m0.len() {
                            assert(m0[t] == y);
                            assert(m0.contains(y));
                        } else {
                            assert(a@.take(i as int)[i - 1] == y);
                        }
                    }
                    if a@.take(i as int).contains(y) {
                        let t = choose|t: int| 0 <= t < a@.take(i as int).len() && a@.take(i as int)[t] == y;
                        if t < i - 1 {
                            assert(a@.take(i - 1)[t] == y);
                            assert(m0.contains(y));
                            let u = choose|u: int| 0 <= u < m0.len() && m0[u] == y;
                            assert(m@[u] == y);
                        } else {
                            assert(m@[m@.len() - 1] == y);
                        }
                    }
                    if b@.take(j as int).contains(y) {
                        assert(m0.contains(y));
                        let u = choose|u: int| 0 <= u < m0.len() && m0[u] == y;
                        assert(m@[u] == y);
                    }
                }
            }
        } else {
            let x = b[j];
            proof {
                if i < a@.len() {
                    assert(x.core.0 != a@[i as int].core.0) by {
                        if x.core.0 == a@[i as int].core.0 {
                            assert(is_scheduled_core(a@, b@[j as int].core.0 as int));
                        }
                    }
                }
            }
            m.push(x);
            j = j + 1;
            proof {
                assert(b@.take(j as int) =~= b@.take(j - 1).push(x));
                lemma_scheduled_push(m0, x);
                lemma_scheduled_push(b@.take(j - 1), x);
                assert(scheduled_allies(m@) =~= scheduled_allies(a@.take(i as int)).add(scheduled_allies(b@.take(j as int))));
                assert forall|k: int| 0 <= k < idx.len() implies 0 <= #[trigger] idx[k] < m@.len() && m@[idx[k]] == a@.take(i as int)[k] by {
                    assert(m@[idx[k]] == m0[idx[k]]);
                }
                assert forall|y: CoreAssignment| m@.contains(y) <==> (a@.take(i as int).contains(y) || b@.take(j as int).contains(y)) by {
                    if m@.contains(y) {
                        let t = choose|t: int| 0 <= t < m@.len() && m@[t] == y;
                        if t < m0.len() {
                            assert(m0[t] == y);
                            assert(m0.contains(y));
                        } else {
                            assert(b@.take(j as int)[j - 1] == y);
                        }
                    }
                    if b@.take(j as int).contains(y) {
                        let t = choose|t: int| 0 <= t < b@.take(j as int).len() && b@.take(j as int)[t] == y;
                        if t < j - 1 {
                            assert(b@.take(j - 1)[t] == y);
                            assert(m0.contains(y));
                            let u = choose|u: int| 0 <= u < m0.len() && m0[u] == y;
                            assert(m@[u] == y);
                        } else {
                            assert(m@[m@.len() - 1] == y);
                        }
                    }
                    if a@.take(i as int).contains(y) {
                        assert(m0.contains(y));
                        let u = choose|u: int| 0 <= u < m0.len() && m0[u] == y;
                        assert(m@[u] == y);
                    }
                }
            }
        }
    }
    proof {
        assert(a@.take(i as int) =~= a@);
        assert(b@.take(j as int) =~= b@);
        assert(embeds(a@, m@, idx));
    }
    m
}

/// Partitions validators `0..n_validators` into `n_cores` groups.
fn make_groups(n_validators: usize, n_cores: u32) -> (groups: Vec<Vec<ValidatorIndex>>)
    requires
        n_cores > 0,
    ensures
        groups_spec(groups@, n_validators as int, n_cores as int),
{
    let n = n_cores as usize;
    let base = n_validators / n;
    let larger = n_validators % n;
    let ghost nv = n_validators as int;
    let ghost c = n as int;
    proof {
        lemma_group_layout(nv, c, 0);
    }
    let mut groups: Vec<Vec<ValidatorIndex>> = Vec::new();
    let mut offset: usize = 0;
    let mut g: usize = 0;
    while g < n
        invariant
            n == n_cores as usize,
            n > 0,
            base == nv / c,
            larger == nv % c,
            nv == n_validators,
            c == n,
            g <= n,
            offset == group_start(g as int, base as int, larger as int),
            groups@.len() == g,
            forall|h: int| 0 <= h < g ==> #[trigger] groups@[h]@.len() == group_size(h, base as int, larger as int),
            forall|h: int, j: int| 0 <= h < g && 0 <= j < group_size(h, base as int, larger as int)
                ==> #[trigger] groups@[h]@[j] == ValidatorIndex((group_start(h, base as int, larger as int) + j) as u32),
        decreases n - g,
    {
        proof {
            lemma_group_layout(nv, c, g as int);
        }
        let size = if g < larger { base + 1 } else { base };
        let mut group: Vec<ValidatorIndex> = Vec::new();
        let mut j: usize = 0;
        while j < size
            invariant
                j <= size,
                size as int == group_size(g as int, base as int, larger as int),
                offset + size <= n_validators,
                group@.len() == j,
                forall|k: int| 0 <= k < j ==> #[trigger] group@[k] == ValidatorIndex((offset + k) as u32),
            decreases size - j,
        {
            group.push(ValidatorIndex((offset + j) as u32));
            j = j + 1;
        }
        groups.push(group);
        offset = offset + size;
        g = g + 1;
    }
    groups
}

/// The allythread entries that occupy `cores`, in core order, queued on core offset zero.
pub open spec fn threads_in_cores(cores: Seq<Option<CoreOccupied>>) -> Seq<QueuedAllythread>
    decreases cores.len(),
{
    if cores.len() == 0 {
        Seq::empty()
    } else {
        let rest = threads_in_cores(cores.drop_last());
        match cores.last() {
            Some(CoreOccupied::Allythread(entry)) => rest.push(QueuedAllythread { claim: entry, core_offset: 0 }),
            _ => rest,
        }
    }
}

/// A queued entry survives a session change where its retries are within the limit and its
/// ally is still a live allythread.
pub open spec fn keep_pred(max_retries: u32, live: Seq<AllyId>) -> spec_fn(QueuedAllythread) -> bool {
    |q: QueuedAllythread| q.claim.retries <= max_retries && live.contains(q.claim.claim.0)
}

/// Some entry of `q` that does not survive belongs to `id`.
pub open spec fn pruned_id(q: Seq<QueuedAllythread>, keep: spec_fn(QueuedAllythread) -> bool, id: AllyId) -> bool {
    exists|k: int| 0 <= k < q.len() && !keep(q[k]) && q[k].claim.claim.0 == id
}

/// The entries of `kept`, in order, spread round-robin over `n` core offsets.
pub open spec fn rebalanced(kept: Seq<QueuedAllythread>, n: u32) -> Seq<QueuedAllythread> {
    Seq::new(kept.len(), |i: int| QueuedAllythread { claim: kept[i].claim, core_offset: ((i as u32) % n) as u32 })
}

/// The number of availability cores: one per allychain plus the allythread cores, or more
/// where the validators per core are capped.
pub open spec fn n_cores_spec(n_allychains: u32, n_validators: usize, config: HostConfiguration) -> u32 {
    let by_paras = (n_allychains + config.allythread_cores) as u32;
    let by_validators: u32 = match config.max_validators_per_core {
        Some(x) => if x != 0 { ((n_validators as u32) / x) as u32 } else { 0 },
        None => 0,
    };
    if by_paras >= by_validators { by_paras } else { by_validators }
}

/// A session has a core for every allychain and every allythread core; where validators per
/// core are capped (at a nonzero number), it has at least one core per that many validators;
/// and it has no more cores than the larger of those two counts.
pub proof fn lemma_n_cores(n_allychains: u32, n_validators: usize, config: HostConfiguration)
    requires
        n_allychains + config.allythread_cores <= u32::MAX,
    ensures
        n_cores_spec(n_allychains, n_validators, config) >= n_allychains + config.allythread_cores,
        config.max_validators_per_core matches Some(x)
            ==> (x != 0 ==> n_cores_spec(n_allychains, n_validators, config) >= (n_validators as u32) / x),
        n_cores_spec(n_allychains, n_validators, config) == n_allychains + config.allythread_cores
            || (config.max_validators_per_core matches Some(x) && x != 0
                && n_cores_spec(n_allychains, n_validators, config) == (n_validators as u32) / x),
{
}

/// What is scheduled next on `core` once its candidate becomes available.
pub open spec fn next_up_on_available_spec(q: QueueView, core: CoreIndex, allychains: Seq<AllyId>) -> Option<ScheduledCore> {
    if (core.0 as int) < allychains.len() {
        Some(ScheduledCore { ally_id: allychains[core.0 as int], collator: None })
    } else {
        match next_on_core_spec(q, (core.0 - allychains.len()) as u32) {
            Some(entry) => Some(ScheduledCore { ally_id: entry.claim.0, collator: Some(entry.claim.1) }),
            None => None,
        }
    }
}

/// What freeing cores changes: the cores, the allies in the claim index, and the queue.
pub struct FreeState {
    pub cores: Seq<Option<CoreOccupied>>,
    pub index: Set<AllyId>,
    pub queue: QueueView,
}

/// Frees the core `freed.0` for reason `freed.1`, with `n` allythread cores: an allythread
/// that concluded leaves the claim index, one that timed out goes back to the queue with
/// the same retries. Indices out of range and unoccupied cores change nothing.
pub open spec fn free_step(st: FreeState, freed: (CoreIndex, FreedReason), n: u32) -> FreeState {
    let i = freed.0.0 as int;
    if i >= st.cores.len() {
        st
    } else {
        match st.cores[i] {
            None => st,
            Some(CoreOccupied::Allychain) => FreeState { cores: st.cores.update(i, None), ..st },
            Some(CoreOccupied::Allythread(entry)) => match freed.1 {
                FreedReason::Concluded => FreeState {
                    cores: st.cores.update(i, None),
                    index: st.index.remove(entry.claim.0),
                    ..st
                },
                FreedReason::TimedOut => FreeState {
                    cores: st.cores.update(i, None),
                    queue: enqueue_spec(st.queue, entry, n),
                    ..st
                },
            },
        }
    }
}

/// Whether freeing `freed` from `st` puts an entry back on the queue.
pub open spec fn free_step_enqueues(st: FreeState, freed: (CoreIndex, FreedReason)) -> bool {
    let i = freed.0.0 as int;
    &&& i < st.cores.len()
    &&& st.cores[i] matches Some(CoreOccupied::Allythread(_))
    &&& freed.1 == FreedReason::TimedOut
}

/// Frees the cores of `list` in order.
pub open spec fn free_all(st: FreeState, list: Seq<(CoreIndex, FreedReason)>, n: u32) -> FreeState
    decreases list.len(),
{
    if list.len() == 0 {
        st
    } else {
        free_step(free_all(st, list.drop_last(), n), list.last(), n)
    }
}

/// Every entry that freeing `list` puts back on the queue finds allythread cores to go to
/// and a next core offset that can be advanced.
pub open spec fn free_all_safe(st: FreeState, list: Seq<(CoreIndex, FreedReason)>, n: u32) -> bool
    decreases list.len(),
{
    if list.len() == 0 {
        true
    } else {
        let before = free_all(st, list.drop_last(), n);
        &&& free_all_safe(st, list.drop_last(), n)
        &&& free_step_enqueues(before, list.last()) ==> (n > 0 && before.queue.next_core_offset < u32::MAX)
    }
}

/// Safety of freeing a list carries over to its prefixes.
pub proof fn lemma_free_all_safe_prefix(st: FreeState, list: Seq<(CoreIndex, FreedReason)>, n: u32, k: int)
    requires
        free_all_safe(st, list, n),
        0 <= k <= list.len(),
    ensures
        free_all_safe(st, list.take(k), n),
    decreases list.len() - k,
{
    if k < list.len() {
        lemma_free_all_safe_prefix(st, list, n, k + 1);
        assert(list.take(k + 1).drop_last() =~= list.take(k));
    } else {
        assert(list.take(k) =~= list);
    }
}

/// Freeing cores keeps their number.
pub proof fn lemma_free_all_len(st: FreeState, list: Seq<(CoreIndex, FreedReason)>, n: u32)
    ensures
        free_all(st, list, n).cores.len() == st.cores.len(),
    decreases list.len(),
{
    if list.len() > 0 {
        lemma_free_all_len(st, list.drop_last(), n);
    }
}

/// Some entry of `list` frees core `i`.
pub open spec fn listed_core(list: Seq<(CoreIndex, FreedReason)>, i: int) -> bool {
    exists|m: int| 0 <= m < list.len() && list[m].0.0 == i
}

/// Freeing cores empties every listed core that exists, whatever the reason it was freed
/// for, and leaves every other core as it was.
pub proof fn lemma_free_all_frees(st: FreeState, list: Seq<(CoreIndex, FreedReason)>, n: u32)
    ensures
        free_all(st, list, n).cores.len() == st.cores.len(),
        forall|m: int| 0 <= m < list.len() && (list[m].0.0 as int) < st.cores.len()
            ==> (#[trigger] free_all(st, list, n).cores[list[m].0.0 as int]) is None,
        forall|i: int| 0 <= i < st.cores.len() && !listed_core(list, i)
            ==> #[trigger] free_all(st, list, n).cores[i] == st.cores[i],
    decreases list.len(),
{
    lemma_free_all_len(st, list, n);
    if list.len() > 0 {
        let init = list.drop_last();
        lemma_free_all_frees(st, init, n);
        lemma_free_all_len(st, init, n);
        let before = free_all(st, init, n);
        let after = free_all(st, list, n);
        let i0 = list.last().0.0 as int;
        assert forall|i: int| 0 <= i < before.cores.len() && i != i0 implies after.cores[i] == before.cores[i] by {}
        if i0 < before.cores.len() {
            assert(after.cores[i0] is None);
        }
        assert forall|m: int| 0 <= m < list.len() && (list[m].0.0 as int) < st.cores.len()
            implies (#[trigger] after.cores[list[m].0.0 as int]) is None by {
            if m < init.len() {
                assert(init[m] == list[m]);
            }
        }
        assert forall|i: int| 0 <= i < st.cores.len() && !listed_core(list, i) implies #[trigger] after.cores[i] == st.cores[i] by {
            assert(i != i0) by {
                if i == i0 {
                    assert(list[list.len() - 1].0.0 == i);
                }
            }
            assert(!listed_core(init, i)) by {
                if listed_core(init, i) {
                    let m = choose|m: int| 0 <= m < init.len() && init[m].0.0 == i;
                    assert(list[m] == init[m]);
                }
            }
        }
    }
}

/// The part of the scheduler's state that freeing cores reads and changes.
pub open spec fn free_state_of(p: Pallet) -> FreeState {
    FreeState {
        cores: p.availability_cores@,
        index: Set::new(|x: AllyId| p.allythread_claim_index@.contains(x)),
        queue: p.allythread_queue@,
    }
}

/// What scheduling reads besides the queue: the cores after freeing, the assignments
/// scheduled before, the allychains, and what the group assignment depends on.
pub struct ScheduleCtx {
    pub cores: Seq<Option<CoreOccupied>>,
    pub scheduled: Seq<CoreAssignment>,
    pub allychains: Seq<AllyId>,
    pub now: BlockNumber,
    pub session_start: BlockNumber,
    pub frequency: BlockNumber,
    pub n_groups: int,
}

/// Some assignment of `s` is for core `k`.
pub open spec fn is_scheduled_core(s: Seq<CoreAssignment>, k: int) -> bool {
    exists|j: int| 0 <= j < s.len() && s[j].core.0 == k
}

/// Schedules core `k`, given the assignments made so far and the queue: a free core that
/// is not scheduled yet goes to its allychain, or, past the allychains, to the oldest claim
/// queued for its allythread core offset, if any.
pub open spec fn schedule_step(ctx: ScheduleCtx, acc: (Seq<CoreAssignment>, QueueView), k: int) -> (Seq<CoreAssignment>, QueueView) {
    if ctx.cores[k] is Some || is_scheduled_core(ctx.scheduled, k) {
        acc
    } else if k < ctx.allychains.len() {
        (acc.0.push(chain_assignment(ctx, k)), acc.1)
    } else {
        let off = thread_offset(ctx, k);
        match next_on_core_spec(acc.1, off) {
            Some(entry) => (acc.0.push(thread_assignment(ctx, k, entry)), take_spec(acc.1, off)),
            None => acc,
        }
    }
}

/// The group that core `k` has when scheduling.
pub open spec fn schedule_group(ctx: ScheduleCtx, k: int) -> GroupIndex {
    group_for_core_spec(CoreIndex(k as u32), ctx.now, ctx.session_start, ctx.frequency, ctx.n_groups)->0
}

/// The assignment of allychain core `k` to its allychain.
pub open spec fn chain_assignment(ctx: ScheduleCtx, k: int) -> CoreAssignment {
    CoreAssignment {
        core: CoreIndex(k as u32),
        ally_id: ctx.allychains[k],
        kind: AssignmentKind::Allychain,
        group_idx: schedule_group(ctx, k),
    }
}

/// The core offset, among the allythread cores, of core `k`.
pub open spec fn thread_offset(ctx: ScheduleCtx, k: int) -> u32 {
    (k - ctx.allychains.len()) as u32
}

/// The assignment of allythread core `k` to the queued `entry`.
pub open spec fn thread_assignment(ctx: ScheduleCtx, k: int, entry: AllythreadEntry) -> CoreAssignment {
    CoreAssignment {
        core: CoreIndex(k as u32),
        ally_id: entry.claim.0,
        kind: AssignmentKind::Allythread(entry.claim.1, entry.retries),
        group_idx: schedule_group(ctx, k),
    }
}

/// The new assignments for cores `0..k`, in core order, and the queue that is left.
pub open spec fn schedule_upto(ctx: ScheduleCtx, q: QueueView, k: int) -> (Seq<CoreAssignment>, QueueView)
    decreases k,
{
    if k <= 0 {
        (Seq::empty(), q)
    } else {
        schedule_step(ctx, schedule_upto(ctx, q, k - 1), k - 1)
    }
}

/// An assignment survives `occupied` where its core did not become occupied.
pub open spec fn not_occupied_pred(now_occupied: Seq<CoreIndex>) -> spec_fn(CoreAssignment) -> bool {
    |a: CoreAssignment| !now_occupied.contains(a.core)
}

/// Some assignment of `s` among the first `upto` is for core `i` and became occupied.
pub open spec fn occupied_by(s: Seq<CoreAssignment>, now_occupied: Seq<CoreIndex>, upto: int, i: int) -> bool {
    exists|t: int| 0 <= t < upto && s[t].core.0 == i && now_occupied.contains(s[t].core)
}

/// Some assignment of `s` at a position in `lo..hi` is for `core`.
pub open spec fn scheduled_in(s: Seq<CoreAssignment>, core: CoreIndex, lo: int, hi: int) -> bool {
    exists|t: int| lo <= t < hi && 0 <= t < s.len() && s[t].core == core
}

/// The cores are strictly ascending.
pub open spec fn strictly_sorted_core_indices(s: Seq<CoreIndex>) -> bool {
    forall|i: int, j: int| 0 <= i < j < s.len() ==> s[i].0 < s[j].0
}

/// Returns the allythread claim of a scheduled assignment to the queue with one more retry,
/// where its ally is still in `live` and the retries stay within `max_retries`.
pub open spec fn requeue_step(q: QueueView, a: CoreAssignment, live: Seq<AllyId>, max_retries: u32, n: u32) -> QueueView {
    match a.kind {
        AssignmentKind::Allythread(collator, retries) => {
            if !live.contains(a.ally_id) {
                q
            } else if retries + 1 <= max_retries {
                enqueue_spec(
                    q,
                    AllythreadEntry { claim: AllythreadClaim(a.ally_id, collator), retries: (retries + 1) as u32 },
                    n,
                )
            } else {
                q
            }
        },
        AssignmentKind::Allychain => q,
    }
}

/// Whether `requeue_step` can be taken without overflow or a division by zero.
pub open spec fn requeue_step_safe(q: QueueView, a: CoreAssignment, live: Seq<AllyId>, max_retries: u32, n: u32) -> bool {
    match a.kind {
        AssignmentKind::Allythread(_, retries) => live.contains(a.ally_id) ==> {
            &&& retries < u32::MAX
            &&& retries + 1 <= max_retries ==> (n > 0 && q.next_core_offset < u32::MAX)
        },
        AssignmentKind::Allychain => true,
    }
}

/// Returns the claims of all assignments of `s`, in order.
pub open spec fn requeue_all(q: QueueView, s: Seq<CoreAssignment>, live: Seq<AllyId>, max_retries: u32, n: u32) -> QueueView
    decreases s.len(),
{
    if s.len() == 0 {
        q
    } else {
        requeue_step(requeue_all(q, s.drop_last(), live, max_retries, n), s.last(), live, max_retries, n)
    }
}

/// Every step of `requeue_all` is safe.
pub open spec fn requeue_all_safe(q: QueueView, s: Seq<CoreAssignment>, live: Seq<AllyId>, max_retries: u32, n: u32) -> bool
    decreases s.len(),
{
    if s.len() == 0 {
        true
    } else {
        &&& requeue_all_safe(q, s.drop_last(), live, max_retries, n)
        &&& requeue_step_safe(requeue_all(q, s.drop_last(), live, max_retries, n), s.last(), live, max_retries, n)
    }
}

/// Safety of requeueing carries over to prefixes.
pub proof fn lemma_requeue_all_safe_prefix(q: QueueView, s: Seq<CoreAssignment>, live: Seq<AllyId>, max_retries: u32, n: u32, k: int)
    requires
        requeue_all_safe(q, s, live, max_retries, n),
        0 <= k <= s.len(),
    ensures
        requeue_all_safe(q, s.take(k), live, max_retries, n),
    decreases s.len() - k,
{
    if k < s.len() {
        lemma_requeue_all_safe_prefix(q, s, live, max_retries, n, k + 1);
        assert(s.take(k + 1).drop_last() =~= s.take(k));
    } else {
        assert(s.take(k) =~= s);
    }
}

/// Freeing cores keeps the queue consistent with its cores.
pub proof fn lemma_free_all_wf(st: FreeState, list: Seq<(CoreIndex, FreedReason)>, n: u32)
    requires
        queue_wf(st.queue, n),
        free_all_safe(st, list, n),
    ensures
        queue_wf(free_all(st, list, n).queue, n),
    decreases list.len(),
{
    if list.len() > 0 {
        lemma_free_all_wf(st, list.drop_last(), n);
        let before = free_all(st, list.drop_last(), n);
        if free_step_enqueues(before, list.last()) {
            let i = list.last().0.0 as int;
            let entry = before.cores[i]->Some_0->Allythread_0;
            lemma_enqueue_wf(before.queue, entry, n);
        }
    }
}

/// With allythread cores and a consistent queue, freeing any list of cores is safe.
pub proof fn lemma_free_all_safe_from_wf(st: FreeState, list: Seq<(CoreIndex, FreedReason)>, n: u32)
    requires
        queue_wf(st.queue, n),
        n > 0,
    ensures
        free_all_safe(st, list, n),
    decreases list.len(),
{
    if list.len() > 0 {
        lemma_free_all_safe_from_wf(st, list.drop_last(), n);
        lemma_free_all_wf(st, list.drop_last(), n);
    }
}

/// Scheduling keeps the queue consistent with its cores.
pub proof fn lemma_schedule_upto_wf(ctx: ScheduleCtx, q: QueueView, k: int, n: u32)
    requires
        queue_wf(q, n),
    ensures
        queue_wf(schedule_upto(ctx, q, k).1, n),
    decreases k,
{
    if k > 0 {
        lemma_schedule_upto_wf(ctx, q, k - 1, n);
        let acc = schedule_upto(ctx, q, k - 1);
        if k - 1 >= ctx.allychains.len() {
            lemma_take_wf(acc.1, (k - 1 - ctx.allychains.len()) as u32, n);
        }
    }
}

/// Every new assignment is for a free core in range that was not scheduled, and they come
/// in strictly ascending core order.
pub proof fn lemma_schedule_upto_cores(ctx: ScheduleCtx, q: QueueView, k: int)
    requires
        0 <= k <= ctx.cores.len(),
        ctx.cores.len() <= u32::MAX,
    ensures
        strictly_sorted_cores(schedule_upto(ctx, q, k).0),
        forall|j: int| 0 <= j < schedule_upto(ctx, q, k).0.len() ==> {
            let c = #[trigger] schedule_upto(ctx, q, k).0[j].core.0 as int;
            &&& c < k
            &&& ctx.cores[c] is None
            &&& !is_scheduled_core(ctx.scheduled, c)
        },
    decreases k,
{
    if k > 0 {
        lemma_schedule_upto_cores(ctx, q, k - 1);
    }
}

/// The group that rotation gives core `core` at block `now`: one step further for every
/// `frequency` blocks since the session start, cyclically over `n_groups` groups.
pub open spec fn rotated_group(core: int, now: BlockNumber, session_start: BlockNumber, frequency: BlockNumber, n_groups: int) -> GroupIndex {
    GroupIndex(((core + (now - session_start) / (frequency as int)) % n_groups) as u32)
}

/// Every assignment that scheduling makes carries the group that rotation gives its core at
/// the block being scheduled.
pub proof fn lemma_schedule_upto_groups(ctx: ScheduleCtx, q: QueueView, k: int)
    requires
        0 <= k <= ctx.cores.len(),
        ctx.cores.len() <= u32::MAX,
        ctx.n_groups >= ctx.cores.len(),
        ctx.now >= ctx.session_start,
        ctx.frequency > 0,
    ensures
        forall|j: int| 0 <= j < schedule_upto(ctx, q, k).0.len() ==> (#[trigger] schedule_upto(ctx, q, k).0[j]).group_idx
            == rotated_group(
                schedule_upto(ctx, q, k).0[j].core.0 as int,
                ctx.now,
                ctx.session_start,
                ctx.frequency,
                ctx.n_groups,
            ),
    decreases k,
{
    if k > 0 {
        lemma_schedule_upto_groups(ctx, q, k - 1);
        let c = k - 1;
        assert(CoreIndex(c as u32).0 == c);
        assert(schedule_group(ctx, c) == rotated_group(c, ctx.now, ctx.session_start, ctx.frequency, ctx.n_groups));
        let prev = schedule_upto(ctx, q, k - 1).0;
        let now_ups = schedule_upto(ctx, q, k).0;
        assert forall|j: int| 0 <= j < now_ups.len() implies (#[trigger] now_ups[j]).group_idx
            == rotated_group(now_ups[j].core.0 as int, ctx.now, ctx.session_start, ctx.frequency, ctx.n_groups) by {
            if j < prev.len() {
                assert(now_ups[j] == prev[j]);
            }
        }
    }
}

/// Requeueing keeps the queue consistent with its cores.
pub proof fn lemma_requeue_all_wf(q: QueueView, s: Seq<CoreAssignment>, live: Seq<AllyId>, max_retries: u32, n: u32)
    requires
        queue_wf(q, n),
        requeue_all_safe(q, s, live, max_retries, n),
    ensures
        queue_wf(requeue_all(q, s, live, max_retries, n), n),
    decreases s.len(),
{
    if s.len() > 0 {
        lemma_requeue_all_wf(q, s.drop_last(), live, max_retries, n);
        let before = requeue_all(q, s.drop_last(), live, max_retries, n);
        let a = s.last();
        match a.kind {
            AssignmentKind::Allythread(collator, retries) => {
                if live.contains(a.ally_id) && retries + 1 <= max_retries {
                    lemma_enqueue_wf(
                        before,
                        AllythreadEntry { claim: AllythreadClaim(a.ally_id, collator), retries: (retries + 1) as u32 },
                        n,
                    );
                }
            },
            AssignmentKind::Allychain => {},
        }
    }
}

/// With allythread cores and a consistent queue, requeueing is safe where no scheduled
/// allythread has exhausted the retry counter.
pub proof fn lemma_requeue_all_safe_from_wf(q: QueueView, s: Seq<CoreAssignment>, live: Seq<AllyId>, max_retries: u32, n: u32)
    requires
        queue_wf(q, n),
        n > 0,
        forall|j: int| 0 <= j < s.len() ==> (#[trigger] s[j].kind matches AssignmentKind::Allythread(_, r) ==> r < u32::MAX),
    ensures
        requeue_all_safe(q, s, live, max_retries, n),
    decreases s.len(),
{
    if s.len() > 0 {
        assert forall|j: int| 0 <= j < s.drop_last().len() implies (#[trigger] s.drop_last()[j].kind matches AssignmentKind::Allythread(_, r) ==> r < u32::MAX) by {
            assert(s.drop_last()[j] == s[j]);
        }
        lemma_requeue_all_safe_from_wf(q, s.drop_last(), live, max_retries, n);
        lemma_requeue_all_wf(q, s.drop_last(), live, max_retries, n);
        assert(s.last() == s[s.len() - 1]);
    }
}

/// Taking the claim for one core offset leaves the claims of every other offset as they
/// were.
pub proof fn lemma_take_other_offset(q: QueueView, off: u32, other: u32)
    requires
        off != other,
    ensures
        has_on_core(take_spec(q, off).queue, other) == has_on_core(q.queue, other),
        next_on_core_spec(take_spec(q, off), other) == next_on_core_spec(q, other),
{
    if has_on_core(q.queue, off) {
        let p = position_on_core(q.queue, off);
        let q2 = q.queue.remove(p);
        assert(take_spec(q, off).queue == q2);
        if has_on_core(q.queue, other) {
            let i = position_on_core(q.queue, other);
            assert(i != p);
            let i2 = if i < p { i } else { i - 1 };
            assert(q2[i2] == q.queue[i]);
            assert forall|j: int| 0 <= j < i2 implies q2[j].core_offset != other by {
                if j < p {
                    assert(q2[j] == q.queue[j]);
                } else {
                    assert(q2[j] == q.queue[j + 1]);
                }
            }
            assert(first_on_core(q2, other, i2));
            lemma_first_on_core_unique(q2, other, i2, position_on_core(q2, other));
        } else {
            if has_on_core(q2, other) {
                let i2 = position_on_core(q2, other);
                let i = if i2 < p { i2 } else { i2 + 1 };
                assert(q2[i2] == q.queue[i]);
                assert forall|j: int| 0 <= j < i implies q.queue[j].core_offset != other by {
                    if j < p {
                        assert(q2[j] == q.queue[j]);
                    } else if j > p {
                        assert(q2[j - 1] == q.queue[j]);
                    }
                }
                assert(first_on_core(q.queue, other, i));
            }
        }
    }
}

/// Scheduling more cores only appends assignments.
pub proof fn lemma_schedule_upto_prefix(ctx: ScheduleCtx, q: QueueView, j: int, k: int)
    requires
        0 <= j <= k,
    ensures
        schedule_upto(ctx, q, j).0.len() <= schedule_upto(ctx, q, k).0.len(),
        forall|i: int| 0 <= i < schedule_upto(ctx, q, j).0.len()
            ==> #[trigger] schedule_upto(ctx, q, k).0[i] == schedule_upto(ctx, q, j).0[i],
    decreases k - j,
{
    if j < k {
        lemma_schedule_upto_prefix(ctx, q, j, k - 1);
    }
}

/// Assignments made after the first `j` cores are for cores from `j` on.
pub proof fn lemma_schedule_upto_tail(ctx: ScheduleCtx, q: QueueView, j: int, k: int)
    requires
        0 <= j <= k <= ctx.cores.len(),
        ctx.cores.len() <= u32::MAX,
    ensures
        forall|i: int| schedule_upto(ctx, q, j).0.len() <= i < schedule_upto(ctx, q, k).0.len()
            ==> #[trigger] schedule_upto(ctx, q, k).0[i].core.0 >= j,
    decreases k - j,
{
    if j < k {
        lemma_schedule_upto_tail(ctx, q, j, k - 1);
        lemma_schedule_upto_prefix(ctx, q, j, k - 1);
    }
}

/// Before the allythread core with offset `off` is reached, the queue still offers what it
/// offered at the start for that offset.
pub proof fn lemma_schedule_upto_queue(ctx: ScheduleCtx, q: QueueView, k: int, off: u32)
    requires
        0 <= k <= ctx.cores.len(),
        ctx.cores.len() <= u32::MAX,
        off as int >= k - ctx.allychains.len(),
    ensures
        next_on_core_spec(schedule_upto(ctx, q, k).1, off) == next_on_core_spec(q, off),
    decreases k,
{
    if k > 0 {
        lemma_schedule_upto_queue(ctx, q, k - 1, off);
        let acc = schedule_upto(ctx, q, k - 1);
        let c = k - 1;
        if !(ctx.cores[c] is Some || is_scheduled_core(ctx.scheduled, c)) && c >= ctx.allychains.len() {
            let o = thread_offset(ctx, c);
            assert(o as int == c - ctx.allychains.len());
            lemma_take_other_offset(acc.1, o, off);
        }
    }
}

/// What scheduling does to a free core `c` that is not scheduled yet: an allychain core gets
/// its allychain; an allythread core gets the oldest claim queued for its offset at the
/// start, and stays unassigned where there is none.
pub proof fn lemma_schedule_assigns(ctx: ScheduleCtx, q: QueueView, c: int)
    requires
        0 <= c < ctx.cores.len(),
        ctx.cores.len() <= u32::MAX,
        ctx.cores[c] is None,
        !is_scheduled_core(ctx.scheduled, c),
    ensures
        ({
            let ups = schedule_upto(ctx, q, ctx.cores.len() as int).0;
            &&& c < ctx.allychains.len() ==> ups.contains(chain_assignment(ctx, c))
            &&& c >= ctx.allychains.len() ==> match next_on_core_spec(q, thread_offset(ctx, c)) {
                Some(entry) => ups.contains(thread_assignment(ctx, c, entry)),
                None => !is_scheduled_core(ups, c),
            }
        }),
{
    let n = ctx.cores.len() as int;
    let ups = schedule_upto(ctx, q, n).0;
    let before = schedule_upto(ctx, q, c);
    let after = schedule_upto(ctx, q, c + 1);
    lemma_schedule_upto_prefix(ctx, q, c + 1, n);
    if c >= ctx.allychains.len() {
        lemma_schedule_upto_queue(ctx, q, c, thread_offset(ctx, c));
    }
    if after.0.len() > before.0.len() {
        let i = before.0.len() as int;
        assert(after.0[i] == ups[i]);
        assert(ups.contains(after.0[i]));
    } else {
        assert(after.0 == before.0);
        if c >= ctx.allychains.len() && is_scheduled_core(ups, c) {
            let t = choose|t: int| 0 <= t < ups.len() && ups[t].core.0 == c;
            lemma_schedule_upto_cores(ctx, q, c);
            lemma_schedule_upto_tail(ctx, q, c + 1, n);
            if t < before.0.len() {
                assert(ups[t] == before.0[t]);
                assert(before.0[t].core.0 < c);
            } else {
                assert(ups[t].core.0 >= c + 1);
            }
        }
    }
}

/// `n` unoccupied cores.
pub open spec fn free_cores_seq(n: int) -> Seq<Option<CoreOccupied>> {
    Seq::new(n as nat, |i: int| None::<CoreOccupied>)
}

/// The old queue followed by the allythread entries that occupy `cores`.
fn queue_with_core_threads(queue: &Vec<QueuedAllythread>, cores: &Vec<Option<CoreOccupied>>) -> (mid: Vec<QueuedAllythread>)
    ensures
        mid@ == queue@ + threads_in_cores(cores@),
{
    let mut mid: Vec<QueuedAllythread> = Vec::new();
    let mut i: usize = 0;
    while i < queue.len()
        invariant
            i <= queue.len(),
            mid@ == queue@.take(i as int),
        decreases queue.len() - i,
    {
        mid.push(queue[i]);
        i = i + 1;
        proof {
            assert(mid@ =~= queue@.take(i as int));
        }
    }
    proof {
        assert(queue@.take(i as int) =~= queue@);
        assert(cores@.take(0) =~= Seq::<Option<CoreOccupied>>::empty());
        assert(mid@ =~= queue@ + threads_in_cores(cores@.take(0)));
    }
    let mut c: usize = 0;
    while c < cores.len()
        invariant
            c <= cores.len(),
            mid@ == queue@ + threads_in_cores(cores@.take(c as int)),
        decreases cores.len() - c,
    {
        proof {
            assert(cores@.take(c + 1).drop_last() =~= cores@.take(c as int));
        }
        match cores[c] {
            Some(CoreOccupied::Allythread(entry)) => {
                mid.push(QueuedAllythread { claim: entry, core_offset: 0 });
                proof {
                    assert(mid@ =~= queue@ + threads_in_cores(cores@.take(c + 1)));
                }
            },
            _ => {
                proof {
                    assert(mid@ =~= queue@ + threads_in_cores(cores@.take(c + 1)));
                }
            },
        }
        c = c + 1;
    }
    proof {
        assert(cores@.take(c as int) =~= cores@);
    }
    mid
}

/// Keeps the entries of `mid` that survive, and drops the ally of every other entry from
/// the claim index.
fn prune_queue(
    mid: &Vec<QueuedAllythread>,
    max_retries: u32,
    allythreads: &Vec<AllyId>,
    index: &mut Vec<AllyId>,
) -> (kept: Vec<QueuedAllythread>)
    ensures
        kept@ == mid@.filter(keep_pred(max_retries, allythreads@)),
        strictly_sorted_ids(old(index)@) ==> {
            &&& strictly_sorted_ids(final(index)@)
            &&& forall|x: AllyId| #[trigger] final(index)@.contains(x)
                <==> (old(index)@.contains(x) && !pruned_id(mid@, keep_pred(max_retries, allythreads@), x))
        },
{
    let ghost sorted0 = strictly_sorted_ids(index@);
    let ghost keep = keep_pred(max_retries, allythreads@);
    let mut kept: Vec<QueuedAllythread> = Vec::new();
    let mut i: usize = 0;
    proof {
        assert(mid@.take(0) =~= Seq::<QueuedAllythread>::empty());
        reveal_with_fuel(Seq::filter, 1);
    }
    while i < mid.len()
        invariant
            keep == keep_pred(max_retries, allythreads@),
            i <= mid.len(),
            kept@ == mid@.take(i as int).filter(keep),
            sorted0 == strictly_sorted_ids(old(index)@),
            sorted0 ==> strictly_sorted_ids(index@),
            sorted0 ==> forall|x: AllyId| index@.contains(x)
                <==> (old(index)@.contains(x) && !pruned_id(mid@.take(i as int), keep, x)),
        decreases mid.len() - i,
    {
        let queued = mid[i];
        let live = contains_ally(allythreads, queued.claim.claim.0);
        let will_keep = queued.claim.retries <= max_retries && live;
        proof {
            assert(mid@.take(i + 1) =~= mid@.take(i as int).push(queued));
            mid@.take(i as int).lemma_filter_push(queued, keep);
            assert(will_keep == keep(queued));
        }
        let ghost index_before = index@;
        if will_keep {
            kept.push(queued);
        } else {
            remove_id(index, queued.claim.claim.0);
        }
        proof {
            if sorted0 {
            assert forall|x: AllyId| index@.contains(x)
                <==> (old(index)@.contains(x) && !pruned_id(mid@.take(i + 1), keep, x)) by {
                let pre = mid@.take(i as int);
                let post = mid@.take(i + 1);
                if pruned_id(pre, keep, x) {
                    let k = choose|k: int| 0 <= k < pre.len() && !keep(pre[k]) && pre[k].claim.claim.0 == x;
                    assert(post[k] == pre[k]);
                }
                if pruned_id(post, keep, x) {
                    let k = choose|k: int| 0 <= k < post.len() && !keep(post[k]) && post[k].claim.claim.0 == x;
                    if k < i {
                        assert(pre[k] == post[k]);
                    }
                }
                if !will_keep && x == queued.claim.claim.0 {
                    assert(post[i as int] == queued);
                }
            }
            }
        }
        i = i + 1;
    }
    proof {
        assert(mid@.take(i as int) =~= mid@);
    }
    kept
}

/// The surviving entries spread round-robin over `n` allythread cores.
fn rebalance(kept: &Vec<QueuedAllythread>, n: u32) -> (q: AllythreadClaimQueue)
    requires
        n > 0,
    ensures
        q@.queue == rebalanced(kept@, n),
        q@.next_core_offset == ((kept@.len() as u32) % n) as u32,
{
    let mut queue: Vec<QueuedAllythread> = Vec::new();
    let mut i: usize = 0;
    while i < kept.len()
        invariant
            n > 0,
            i <= kept.len(),
            queue@ == rebalanced(kept@.take(i as int), n),
        decreases kept.len() - i,
    {
        queue.push(QueuedAllythread { claim: kept[i].claim, core_offset: (i as u32) % n });
        i = i + 1;
        proof {
            assert(queue@ =~= rebalanced(kept@.take(i as int), n));
        }
    }
    proof {
        assert(kept@.take(i as int) =~= kept@);
    }
    AllythreadClaimQueue { queue, next_core_offset: (kept.len() as u32) % n }
}

impl Pallet {
    /// The scheduler's state is consistent with `config`: the claim index and the schedule
    /// are strictly sorted, the queue is consistent with the allythread cores, core indices
    /// fit their type, and there is one validator group per core, or none.
    pub open spec fn wf(&self, config: HostConfiguration) -> bool {
        &&& strictly_sorted_ids(self.allythread_claim_index@)
        &&& strictly_sorted_cores(self.scheduled@)
        &&& queue_wf(self.allythread_queue@, config.allythread_cores)
        &&& self.availability_cores@.len() <= u32::MAX
        &&& (self.validator_groups@.len() == 0 || self.validator_groups@.len() == self.availability_cores@.len())
    }

    /// The claim index guards the allythread claims held: every claim queued, scheduled on a
    /// core, or occupying one belongs to an ally in the index, and no ally holds two, so that
    /// an ally in the index cannot claim again until its claim is released.
    pub open spec fn claim_index_sound(&self) -> bool {
        claims_sound(
            held_claims(self.allythread_queue@.queue, self.scheduled@, self.availability_cores@),
            Set::new(|x: AllyId| self.allythread_claim_index@.contains(x)),
        )
    }

    /// An empty scheduler: no groups, cores, claims or schedule, and a session starting at
    /// block zero.
    pub fn new() -> (p: Self)
        ensures
            p.validator_groups@.len() == 0,
            p.allythread_queue@.queue.len() == 0,
            p.allythread_queue@.next_core_offset == 0,
            p.availability_cores@.len() == 0,
            p.allythread_claim_index@.len() == 0,
            p.session_start_block == 0,
            p.scheduled@.len() == 0,
            p.claim_index_sound(),
    {
        let p = Pallet {
            validator_groups: Vec::new(),
            allythread_queue: AllythreadClaimQueue::default(),
            availability_cores: Vec::new(),
            allythread_claim_index: Vec::new(),
            session_start_block: 0,
            scheduled: Vec::new(),
        };
        proof {
            assert(held_claims(p.allythread_queue@.queue, p.scheduled@, p.availability_cores@) =~= Multiset::<AllyId>::empty());
        }
        p
    }

    /// Called at the start of a block; scheduling does no work there.
    pub fn initializer_initialize(&self, _now: BlockNumber) -> (w: Weight)
        ensures
            w == 0,
    {
        0
    }

    /// Called at the end of a block; scheduling does no work there.
    pub fn initializer_finalize(&self) {
    }

    /// Notes that a new session starts at block `block_number + 1`: empties every core,
    /// returning the allythreads that occupied them to the queue; resizes the cores to one
    /// per allychain plus the allythread cores (or more, where validators per core are
    /// capped); partitions the `n_validators` validators into one group per core; drops the
    /// queued claims that ran out of retries or whose ally is no longer in `allythreads`,
    /// and spreads the rest round-robin over the allythread cores.
    pub fn initializer_on_new_session(
        &mut self,
        n_validators: usize,
        config: &HostConfiguration,
        allychains: &Vec<AllyId>,
        allythreads: &Vec<AllyId>,
        block_number: BlockNumber,
    )
        requires
            (allychains@.len() as u32) + config.allythread_cores <= u32::MAX,
            block_number < u32::MAX,
        ensures
            ({
                let n_cores = n_cores_spec(allychains@.len() as u32, n_validators, *config);
                let mid = old(self).allythread_queue.queue@ + threads_in_cores(old(self).availability_cores@);
                let keep = keep_pred(config.allythread_retries, allythreads@);
                let kept = mid.filter(keep);
                &&& final(self).availability_cores@ == free_cores_seq(n_cores as int)
                &&& final(self).availability_cores@.len() >= (allychains@.len() as u32) + config.allythread_cores
                &&& (config.max_validators_per_core matches Some(x)
                    ==> (x != 0 ==> final(self).availability_cores@.len() >= (n_validators as u32) / x))
                &&& (final(self).availability_cores@.len() == (allychains@.len() as u32) + config.allythread_cores
                    || (config.max_validators_per_core matches Some(x) && x != 0
                        && final(self).availability_cores@.len() == (n_validators as u32) / x))
                &&& (n_cores == 0 || n_validators == 0) ==> final(self).validator_groups@.len() == 0
                &&& (n_cores > 0 && n_validators > 0) ==> groups_spec(final(self).validator_groups@, n_validators as int, n_cores as int)
                &&& final(self).session_start_block == block_number + 1
                &&& final(self).scheduled@ == old(self).scheduled@
                &&& config.allythread_cores == 0 ==> {
                    &&& final(self).allythread_queue@.queue == Seq::<QueuedAllythread>::empty()
                    &&& final(self).allythread_queue@.next_core_offset == 0
                    &&& final(self).allythread_claim_index@ == Seq::<AllyId>::empty()
                }
                &&& config.allythread_cores > 0 ==> {
                    &&& final(self).allythread_queue@.queue == rebalanced(kept, config.allythread_cores)
                    &&& final(self).allythread_queue@.next_core_offset
                        == ((kept.len() as u32) % config.allythread_cores) as u32
                    &&& strictly_sorted_ids(old(self).allythread_claim_index@) ==> {
                        &&& strictly_sorted_ids(final(self).allythread_claim_index@)
                        &&& forall|x: AllyId| #[trigger] final(self).allythread_claim_index@.contains(x)
                            <==> (old(self).allythread_claim_index@.contains(x) && !pruned_id(mid, keep, x))
                    }
                }
                &&& strictly_sorted_cores(old(self).scheduled@)
                    && (config.allythread_cores > 0 ==> strictly_sorted_ids(old(self).allythread_claim_index@))
                    ==> final(self).wf(*config)
                &&& old(self).claim_index_sound()
                    && (config.allythread_cores > 0 ==> strictly_sorted_ids(old(self).allythread_claim_index@))
                    && (config.allythread_cores > 0 || scheduled_allies(old(self).scheduled@) == Multiset::<AllyId>::empty())
                    ==> final(self).claim_index_sound()
            }),
    {
        let n_allychains = allychains.len() as u32;
        let by_paras = n_allychains + config.allythread_cores;
        let by_validators: u32 = match config.max_validators_per_core {
            Some(x) => if x != 0 { (n_validators as u32) / x } else { 0 },
            None => 0,
        };
        let n_cores = if by_paras >= by_validators { by_paras } else { by_validators };

        let mid = queue_with_core_threads(&self.allythread_queue.queue, &self.availability_cores);

        let mut cores: Vec<Option<CoreOccupied>> = Vec::new();
        let mut i: usize = 0;
        while i < n_cores as usize
            invariant
                i <= n_cores as usize,
                cores@ == free_cores_seq(i as int),
            decreases n_cores as usize - i,
        {
            cores.push(None);
            i = i + 1;
            proof {
                assert(cores@ =~= free_cores_seq(i as int));
            }
        }
        self.availability_cores = cores;

        if n_cores == 0 || n_validators == 0 {
            self.validator_groups = Vec::new();
        } else {
            self.validator_groups = make_groups(n_validators, n_cores);
        }

        if config.allythread_cores == 0 {
            self.allythread_queue = AllythreadClaimQueue::default();
            self.allythread_claim_index = Vec::new();
        } else {
            let kept = prune_queue(&mid, config.allythread_retries, allythreads, &mut self.allythread_claim_index);
            self.allythread_queue = rebalance(&kept, config.allythread_cores);
        }

        self.session_start_block = block_number + 1;
        proof {
            let sched = self.scheduled@;
            let h1 = held_claims(self.allythread_queue@.queue, sched, self.availability_cores@);
            let ix1 = Set::new(|x: AllyId| self.allythread_claim_index@.contains(x));
            lemma_occupying_free(self.availability_cores@);
            if old(self).claim_index_sound() && config.allythread_cores == 0
                && scheduled_allies(sched) == Multiset::<AllyId>::empty() {
                assert(h1 =~= Multiset::<AllyId>::empty());
            }
            if old(self).claim_index_sound() && config.allythread_cores > 0
                && strictly_sorted_ids(old(self).allythread_claim_index@) {
                let keep = keep_pred(config.allythread_retries, allythreads@);
                let kept = mid@.filter(keep);
                let h0 = held_claims(old(self).allythread_queue@.queue, sched, old(self).availability_cores@);
                lemma_queued_rebalanced(kept, config.allythread_cores);
                lemma_queued_concat(old(self).allythread_queue@.queue, threads_in_cores(old(self).availability_cores@));
                lemma_queued_threads_in_cores(old(self).availability_cores@);
                assert forall|x: AllyId| #![trigger h1.count(x)] h1.count(x) <= 1 && (h1.count(x) > 0 ==> ix1.contains(x)) by {
                    lemma_queued_filter(mid@, keep, x);
                    assert(queued_allies(mid@).count(x)
                        == queued_allies(old(self).allythread_queue@.queue).count(x)
                            + occupying_allies(old(self).availability_cores@).count(x));
                    assert(h0.count(x) <= 1);
                    if h1.count(x) > 0 {
                        assert(h0.count(x) > 0);
                        assert(old(self).allythread_claim_index@.contains(x));
                        assert(!pruned_id(mid@, keep, x));
                    }
                }
            }
        }
        proof {
            lemma_n_cores(n_allychains, n_validators, *config);
            assert(self.availability_cores@.len() == n_cores);
            let n = config.allythread_cores;
            if n > 0 {
                let q = self.allythread_queue@;
                assert forall|i: int| 0 <= i < q.queue.len() implies #[trigger] q.queue[i].core_offset < n by {
                    assert(q.queue[i].core_offset == ((i as u32) % n) as u32);
                }
            }
        }
    }

    /// Adds an allythread claim to the queue, with no retries. Nothing changes where the ally
    /// is not in `allythreads`, where the queue already holds `allythread_cores *
    /// scheduling_lookahead` entries, or where the ally already has a claim queued or on a
    /// core (it is in the claim index).
    pub fn add_allythread_claim(&mut self, claim: AllythreadClaim, config: &HostConfiguration, allythreads: &Vec<AllyId>)
        requires
            allythreads@.contains(claim.0) ==> config.allythread_cores * config.scheduling_lookahead <= u32::MAX,
            allythreads@.contains(claim.0)
                && old(self).allythread_queue@.queue.len() < config.allythread_cores * config.scheduling_lookahead
                && !old(self).allythread_claim_index@.contains(claim.0)
                ==> old(self).allythread_queue.next_core_offset < u32::MAX,
            strictly_sorted_ids(old(self).allythread_claim_index@),
        ensures
            ({
                let accepted = allythreads@.contains(claim.0)
                    && old(self).allythread_queue.queue@.len() < config.allythread_cores * config.scheduling_lookahead
                    && !old(self).allythread_claim_index@.contains(claim.0);
                &&& accepted ==> {
                    &&& final(self).allythread_queue@ == enqueue_spec(
                        old(self).allythread_queue@,
                        AllythreadEntry { claim, retries: 0 },
                        config.allythread_cores,
                    )
                    &&& strictly_sorted_ids(final(self).allythread_claim_index@)
                    &&& forall|x: AllyId| #[trigger] final(self).allythread_claim_index@.contains(x)
                        <==> (old(self).allythread_claim_index@.contains(x) || x == claim.0)
                }
                &&& !accepted ==> {
                    &&& final(self).allythread_queue@ == old(self).allythread_queue@
                    &&& final(self).allythread_claim_index@ == old(self).allythread_claim_index@
                }
                &&& final(self).validator_groups@ == old(self).validator_groups@
                &&& final(self).availability_cores@ == old(self).availability_cores@
                &&& final(self).session_start_block == old(self).session_start_block
                &&& final(self).scheduled@ == old(self).scheduled@
                &&& old(self).wf(*config) ==> final(self).wf(*config)
                &&& old(self).claim_index_sound() ==> final(self).claim_index_sound()
            }),
    {
        if !contains_ally(allythreads, claim.0) {
            return;
        }
        let queue_max_size = config.allythread_cores * config.scheduling_lookahead;
        if self.allythread_queue.queue.len() >= queue_max_size as usize {
            return;
        }
        let competes_with_another = insert_id(&mut self.allythread_claim_index, claim.0);
        if competes_with_another {
            return;
        }
        proof {
            assert(config.allythread_cores > 0) by (nonlinear_arith)
                requires
                    config.allythread_cores * config.scheduling_lookahead > 0,
            ;
        }
        proof {
            if old(self).wf(*config) {
                lemma_enqueue_wf(self.allythread_queue@, AllythreadEntry { claim, retries: 0 }, config.allythread_cores);
            }
        }
        let ghost queue_before = self.allythread_queue@;
        self.allythread_queue.enqueue_entry(AllythreadEntry { claim, retries: 0 }, config.allythread_cores);
        proof {
            if old(self).claim_index_sound() {
                let c = claim.0;
                lemma_queued_enqueue(queue_before, AllythreadEntry { claim, retries: 0 }, config.allythread_cores);
                let h0 = held_claims(old(self).allythread_queue@.queue, self.scheduled@, self.availability_cores@);
                let h1 = held_claims(self.allythread_queue@.queue, self.scheduled@, self.availability_cores@);
                let ix1 = Set::new(|x: AllyId| self.allythread_claim_index@.contains(x));
                assert(h0.count(c) == 0) by {
                    if h0.count(c) > 0 {
                        assert(old(self).allythread_claim_index@.contains(c));
                    }
                }
                assert forall|x: AllyId| #![trigger h1.count(x)] h1.count(x) <= 1 && (h1.count(x) > 0 ==> ix1.contains(x)) by {
                    assert(h1.count(x) == h0.count(x) + (if x == c { 1int } else { 0int }));
                    assert(h0.count(x) <= 1);
                    if h1.count(x) > 0 && x != c {
                        assert(old(self).allythread_claim_index@.contains(x));
                    }
                }
            }
        }
    }

    /// The ally assigned to core `core_index`, if the core is occupied: the allychain of that
    /// core, or the allythread of the occupying claim.
    pub fn core_para(&self, core_index: CoreIndex, allychains: &Vec<AllyId>) -> (para: Option<AllyId>)
        requires
            core_index.0 < self.availability_cores@.len()
                && self.availability_cores@[core_index.0 as int] == Some(CoreOccupied::Allychain)
                ==> core_index.0 < allychains@.len(),
        ensures
            para == (if core_index.0 >= self.availability_cores@.len() {
                None
            } else {
                match self.availability_cores@[core_index.0 as int] {
                    None => None,
                    Some(CoreOccupied::Allychain) => Some(allychains@[core_index.0 as int]),
                    Some(CoreOccupied::Allythread(entry)) => Some(entry.claim.0),
                }
            }),
    {
        let i = core_index.0 as usize;
        if i >= self.availability_cores.len() {
            return None;
        }
        match self.availability_cores[i] {
            None => None,
            Some(CoreOccupied::Allychain) => Some(allychains[i]),
            Some(CoreOccupied::Allythread(entry)) => Some(entry.claim.0),
        }
    }

    /// What is scheduled next on `core` once its candidate becomes available: the allychain
    /// of the core, or the oldest queued allythread claim for the core, if any.
    pub fn next_up_on_available(&self, core: CoreIndex, allychains: &Vec<AllyId>) -> (next: Option<ScheduledCore>)
        ensures
            next == next_up_on_available_spec(self.allythread_queue@, core, allychains@),
    {
        if (core.0 as usize) < allychains.len() {
            Some(ScheduledCore { ally_id: allychains[core.0 as usize], collator: None })
        } else {
            let core_offset = (core.0 as usize - allychains.len()) as u32;
            match self.allythread_queue.get_next_on_core(core_offset) {
                Some(entry) => Some(ScheduledCore { ally_id: entry.claim.0, collator: Some(entry.claim.1) }),
                None => None,
            }
        }
    }

    /// What is scheduled next on `core` once its candidate times out: as for availability,
    /// except that an allythread core with nothing queued gets the claim that occupies it, as
    /// long as its retries do not exceed the allowed retries.
    pub fn next_up_on_time_out(&self, core: CoreIndex, allychains: &Vec<AllyId>, config: &HostConfiguration) -> (next: Option<ScheduledCore>)
        ensures
            next == (if (core.0 as int) < allychains@.len() {
                next_up_on_available_spec(self.allythread_queue@, core, allychains@)
            } else {
                match next_up_on_available_spec(self.allythread_queue@, core, allychains@) {
                    Some(n) => Some(n),
                    None => if core.0 >= self.availability_cores@.len() {
                        None
                    } else {
                        match self.availability_cores@[core.0 as int] {
                            Some(CoreOccupied::Allythread(entry)) => if entry.retries <= config.allythread_retries {
                                Some(ScheduledCore { ally_id: entry.claim.0, collator: Some(entry.claim.1) })
                            } else {
                                None
                            },
                            _ => None,
                        }
                    },
                }
            }),
    {
        if (core.0 as usize) < allychains.len() {
            return self.next_up_on_available(core, allychains);
        }
        match self.next_up_on_available(core, allychains) {
            Some(n) => Some(n),
            None => {
                let i = core.0 as usize;
                if i >= self.availability_cores.len() {
                    None
                } else {
                    match self.availability_cores[i] {
                        Some(CoreOccupied::Allythread(entry)) => if entry.retries <= config.allythread_retries {
                            Some(ScheduledCore { ally_id: entry.claim.0, collator: Some(entry.claim.1) })
                        } else {
                            None
                        },
                        _ => None,
                    }
                }
            },
        }
    }

    /// Frees the cores of `just_freed`, in order: an allythread that concluded leaves the claim
    /// index, so its ally may claim again; one that timed out goes back to the queue without
    /// a retry counted against it.
    pub fn free_cores(&mut self, just_freed: &Vec<(CoreIndex, FreedReason)>, config: &HostConfiguration)
        requires
            free_all_safe(free_state_of(*old(self)), just_freed@, config.allythread_cores),
        ensures
            ({
                let st = free_all(free_state_of(*old(self)), just_freed@, config.allythread_cores);
                &&& final(self).availability_cores@ == st.cores
                &&& final(self).allythread_queue@ == st.queue
                &&& forall|m: int| 0 <= m < just_freed@.len() && (just_freed@[m].0.0 as int) < old(self).availability_cores@.len()
                    ==> (#[trigger] final(self).availability_cores@[just_freed@[m].0.0 as int]) is None
                &&& forall|i: int| 0 <= i < old(self).availability_cores@.len() && !listed_core(just_freed@, i)
                    ==> #[trigger] final(self).availability_cores@[i] == old(self).availability_cores@[i]
                &&& strictly_sorted_ids(old(self).allythread_claim_index@) ==> {
                    &&& strictly_sorted_ids(final(self).allythread_claim_index@)
                    &&& forall|x: AllyId| #[trigger] final(self).allythread_claim_index@.contains(x) <==> st.index.contains(x)
                }
                &&& final(self).validator_groups@ == old(self).validator_groups@
                &&& final(self).session_start_block == old(self).session_start_block
                &&& final(self).scheduled@ == old(self).scheduled@
                &&& old(self).wf(*config) ==> final(self).wf(*config)
                &&& strictly_sorted_ids(old(self).allythread_claim_index@) && old(self).claim_index_sound()
                    ==> final(self).claim_index_sound()
            }),
    {
        let ghost st0 = free_state_of(*self);
        let ghost n = config.allythread_cores;
        let ghost sorted0 = strictly_sorted_ids(self.allythread_claim_index@);
        let mut i: usize = 0;
        proof {
            assert(just_freed@.take(0) =~= Seq::<(CoreIndex, FreedReason)>::empty());
            assert(self.allythread_claim_index@ == old(self).allythread_claim_index@);
        }
        while i < just_freed.len()
            invariant
                n == config.allythread_cores,
                st0 == free_state_of(*old(self)),
                free_all_safe(st0, just_freed@, n),
                i <= just_freed.len(),
                ({
                    let st = free_all(st0, just_freed@.take(i as int), n);
                    &&& self.availability_cores@ == st.cores
                    &&& self.allythread_queue@ == st.queue
                    &&& sorted0 ==> forall|x: AllyId| self.allythread_claim_index@.contains(x) <==> st.index.contains(x)
                }),
                sorted0 ==> strictly_sorted_ids(self.allythread_claim_index@),
                sorted0 == strictly_sorted_ids(old(self).allythread_claim_index@),
                self.validator_groups@ == old(self).validator_groups@,
                self.session_start_block == old(self).session_start_block,
                self.scheduled@ == old(self).scheduled@,
            decreases just_freed.len() - i,
        {
            let (freed_index, freed_reason) = just_freed[i];
            let ghost prefix = just_freed@.take(i + 1);
            proof {
                assert(prefix.drop_last() =~= just_freed@.take(i as int));
                assert(prefix.last() == just_freed@[i as int]);
                lemma_free_all_safe_prefix(st0, just_freed@, n, i + 1);
            }
            let idx = freed_index.0 as usize;
            if idx < self.availability_cores.len() {
                match self.availability_cores[idx] {
                    None => {},
                    Some(CoreOccupied::Allychain) => {
                        self.availability_cores.set(idx, None);
                    },
                    Some(CoreOccupied::Allythread(entry)) => {
                        self.availability_cores.set(idx, None);
                        match freed_reason {
                            FreedReason::Concluded => {
                                remove_id(&mut self.allythread_claim_index, entry.claim.0);
                            },
                            FreedReason::TimedOut => {
                                self.allythread_queue.enqueue_entry(entry, config.allythread_cores);
                            },
                        }
                    },
                }
            }
            i = i + 1;
            proof {
                let st = free_all(st0, just_freed@.take(i as int), n);
                assert(just_freed@.take(i as int) == prefix);
                assert(self.availability_cores@ =~= st.cores);
            }
        }
        proof {
            assert(just_freed@.take(i as int) =~= just_freed@);
            lemma_free_all_len(st0, just_freed@, n);
            lemma_free_all_frees(st0, just_freed@, n);
            if old(self).wf(*config) {
                lemma_free_all_wf(st0, just_freed@, n);
            }
            if sorted0 && old(self).claim_index_sound() {
                lemma_free_all_claims(st0, just_freed@, n, self.scheduled@);
                let st = free_all(st0, just_freed@, n);
                assert(Set::new(|x: AllyId| self.allythread_claim_index@.contains(x)) =~= st.index);
            }
        }
    }

    /// Frees the cores of `just_freed` as `free_cores` does, then, where there are validator
    /// groups, schedules every free core that is not scheduled yet: an allychain core to its
    /// allychain, an allythread core to the oldest claim queued for it. The new assignments
    /// join the old ones in core order.
    pub fn schedule(
        &mut self,
        just_freed: &Vec<(CoreIndex, FreedReason)>,
        now: BlockNumber,
        config: &HostConfiguration,
        allychains: &Vec<AllyId>,
    )
        requires
            free_all_safe(free_state_of(*old(self)), just_freed@, config.allythread_cores),
            strictly_sorted_cores(old(self).scheduled@),
            old(self).availability_cores@.len() <= u32::MAX,
            old(self).validator_groups@.len() > 0 ==> {
                &&& old(self).validator_groups@.len() >= old(self).availability_cores@.len()
                &&& now >= old(self).session_start_block
                &&& config.group_rotation_frequency > 0
            },
        ensures
            ({
                let st = free_all(free_state_of(*old(self)), just_freed@, config.allythread_cores);
                let ctx = ScheduleCtx {
                    cores: st.cores,
                    scheduled: old(self).scheduled@,
                    allychains: allychains@,
                    now,
                    session_start: old(self).session_start_block,
                    frequency: config.group_rotation_frequency,
                    n_groups: old(self).validator_groups@.len() as int,
                };
                let (ups, q) = schedule_upto(ctx, st.queue, st.cores.len() as int);
                &&& final(self).availability_cores@ == st.cores
                &&& strictly_sorted_ids(old(self).allythread_claim_index@) ==> {
                    &&& strictly_sorted_ids(final(self).allythread_claim_index@)
                    &&& forall|x: AllyId| #[trigger] final(self).allythread_claim_index@.contains(x) <==> st.index.contains(x)
                }
                &&& final(self).validator_groups@ == old(self).validator_groups@
                &&& final(self).session_start_block == old(self).session_start_block
                &&& old(self).validator_groups@.len() == 0 ==> {
                    &&& final(self).allythread_queue@ == st.queue
                    &&& final(self).scheduled@ == old(self).scheduled@
                }
                &&& is_subsequence(old(self).scheduled@, final(self).scheduled@)
                &&& strictly_sorted_ids(old(self).allythread_claim_index@) && old(self).claim_index_sound()
                    ==> final(self).claim_index_sound()
                &&& old(self).validator_groups@.len() > 0 ==> {
                    &&& final(self).allythread_queue@ == q
                    &&& strictly_sorted_cores(final(self).scheduled@)
                    &&& forall|a: CoreAssignment| #[trigger] final(self).scheduled@.contains(a)
                        <==> (old(self).scheduled@.contains(a) || ups.contains(a))
                    &&& forall|a: CoreAssignment| #[trigger] final(self).scheduled@.contains(a) && !old(self).scheduled@.contains(a) ==> {
                        &&& 0 <= a.core.0 < st.cores.len()
                        &&& st.cores[a.core.0 as int] is None
                        &&& !is_scheduled_core(old(self).scheduled@, a.core.0 as int)
                        &&& a.group_idx == GroupIndex(
                            ((a.core.0 as int + (now - old(self).session_start_block) / (config.group_rotation_frequency as int))
                                % (old(self).validator_groups@.len() as int)) as u32,
                        )
                    }
                    &&& forall|c: int| #![trigger is_scheduled_core(old(self).scheduled@, c)]
                        0 <= c < st.cores.len() && st.cores[c] is None && !is_scheduled_core(old(self).scheduled@, c) ==> {
                        &&& c < allychains@.len() ==> final(self).scheduled@.contains(chain_assignment(ctx, c))
                        &&& c >= allychains@.len() ==> match next_on_core_spec(st.queue, thread_offset(ctx, c)) {
                            Some(entry) => final(self).scheduled@.contains(thread_assignment(ctx, c, entry)),
                            None => !is_scheduled_core(final(self).scheduled@, c),
                        }
                    }
                }
                &&& old(self).wf(*config) ==> final(self).wf(*config)
            }),
    {
        self.free_cores(just_freed, config);
        proof {
            lemma_free_all_len(free_state_of(*old(self)), just_freed@, config.allythread_cores);
        }
        if self.validator_groups.len() == 0 {
            proof {
                lemma_subsequence_refl(self.scheduled@);
            }
            return;
        }
        let ghost ctx = ScheduleCtx {
            cores: self.availability_cores@,
            scheduled: self.scheduled@,
            allychains: allychains@,
            now,
            session_start: self.session_start_block,
            frequency: config.group_rotation_frequency,
            n_groups: self.validator_groups@.len() as int,
        };
        let ghost q0 = self.allythread_queue@;
        let ghost index1 = self.allythread_claim_index@;
        let ghost sound1 = self.claim_index_sound();
        let ghost held1 = held_claims(self.allythread_queue@.queue, self.scheduled@, self.availability_cores@);
        let ghost groups1 = self.validator_groups@;
        let n_cores = self.availability_cores.len();
        let mut updates: Vec<CoreAssignment> = Vec::new();
        let mut p: usize = 0;
        let mut k: usize = 0;
        while k < n_cores
            invariant
                n_cores == self.availability_cores@.len(),
                n_cores <= u32::MAX,
                ctx.cores == self.availability_cores@,
                ctx.scheduled == self.scheduled@,
                ctx.allychains == allychains@,
                ctx.now == now,
                ctx.session_start == self.session_start_block,
                ctx.frequency == config.group_rotation_frequency,
                ctx.n_groups == self.validator_groups@.len(),
                self.validator_groups@.len() >= n_cores,
                self.allythread_claim_index@ == index1,
                self.validator_groups@ == groups1,
                now >= self.session_start_block,
                config.group_rotation_frequency > 0,
                strictly_sorted_cores(self.scheduled@),
                k <= n_cores,
                p <= self.scheduled@.len(),
                forall|j: int| 0 <= j < p ==> self.scheduled@[j].core.0 < k,
                updates@ == schedule_upto(ctx, q0, k as int).0,
                self.allythread_queue@ == schedule_upto(ctx, q0, k as int).1,
                strictly_sorted_cores(updates@),
                forall|j: int| 0 <= j < updates@.len() ==> updates@[j].core.0 < k,
                forall|j: int| 0 <= j < updates@.len() ==> !is_scheduled_core(self.scheduled@, updates@[j].core.0 as int),
            decreases n_cores - k,
        {
            while p < self.scheduled.len() && (self.scheduled[p].core.0 as usize) < k
                invariant
                    p <= self.scheduled@.len(),
                    strictly_sorted_cores(self.scheduled@),
                    forall|j: int| 0 <= j < p ==> self.scheduled@[j].core.0 < k,
                decreases self.scheduled@.len() - p,
            {
                p = p + 1;
            }
            let already = p < self.scheduled.len() && self.scheduled[p].core.0 as usize == k;
            proof {
                if already {
                    assert(is_scheduled_core(self.scheduled@, k as int));
                } else {
                    assert forall|j: int| 0 <= j < self.scheduled@.len() implies self.scheduled@[j].core.0 != k by {
                        if j >= p {
                            assert(self.scheduled@[j].core.0 >= self.scheduled@[p as int].core.0);
                        }
                    }
                }
            }
            let ghost acc = schedule_upto(ctx, q0, k as int);
            if self.availability_cores[k].is_none() && !already {
                let core = CoreIndex(k as u32);
                let group = self.group_assigned_to_core(core, now, config);
                let group_idx = match group {
                    Some(g) => g,
                    None => GroupIndex(0),
                };
                if k < allychains.len() {
                    updates.push(CoreAssignment {
                        core,
                        ally_id: allychains[k],
                        kind: AssignmentKind::Allychain,
                        group_idx,
                    });
                } else {
                    let core_offset = (k - allychains.len()) as u32;
                    match self.allythread_queue.take_next_on_core(core_offset) {
                        Some(entry) => {
                            updates.push(CoreAssignment {
                                core,
                                ally_id: entry.claim.0,
                                kind: AssignmentKind::Allythread(entry.claim.1, entry.retries),
                                group_idx,
                            });
                        },
                        None => {},
                    }
                }
            }
            k = k + 1;
        }
        let merged = merge_assignments(&self.scheduled, &updates);
        proof {
            if old(self).wf(*config) {
                lemma_schedule_upto_wf(ctx, q0, k as int, config.allythread_cores);
            }
            let ups = schedule_upto(ctx, q0, k as int).0;
            lemma_schedule_upto_cores(ctx, q0, k as int);
            lemma_schedule_upto_groups(ctx, q0, k as int);
            assert forall|a: CoreAssignment| #[trigger] merged@.contains(a) && !ctx.scheduled.contains(a) implies {
                &&& 0 <= a.core.0 < ctx.cores.len()
                &&& ctx.cores[a.core.0 as int] is None
                &&& !is_scheduled_core(ctx.scheduled, a.core.0 as int)
                &&& a.group_idx == GroupIndex(
                    ((a.core.0 as int + (now - ctx.session_start) / (config.group_rotation_frequency as int))
                        % ctx.n_groups) as u32,
                )
            } by {
                assert(ups.contains(a));
                let t = choose|t: int| 0 <= t < ups.len() && ups[t] == a;
                assert(ups[t].core.0 == a.core.0);
                assert(ups[t].group_idx == rotated_group(ups[t].core.0 as int, ctx.now, ctx.session_start, ctx.frequency, ctx.n_groups));
            }
            lemma_schedule_upto_claims(ctx, q0, k as int);
            let held2 = held_claims(self.allythread_queue@.queue, merged@, self.availability_cores@);
            assert(held2 =~= held1) by {
                let qa = queued_allies(schedule_upto(ctx, q0, k as int).1.queue);
                let ua = scheduled_allies(ups);
                assert forall|y: AllyId| #[trigger] held2.count(y) == held1.count(y) by {
                    assert(qa.add(ua).count(y) == queued_allies(q0.queue).count(y));
                }
            }
            assert forall|c: int| #![trigger is_scheduled_core(ctx.scheduled, c)]
                0 <= c < ctx.cores.len() && ctx.cores[c] is None && !is_scheduled_core(ctx.scheduled, c) implies {
                &&& c < allychains@.len() ==> merged@.contains(chain_assignment(ctx, c))
                &&& c >= allychains@.len() ==> match next_on_core_spec(q0, thread_offset(ctx, c)) {
                    Some(entry) => merged@.contains(thread_assignment(ctx, c, entry)),
                    None => !is_scheduled_core(merged@, c),
                }
            } by {
                lemma_schedule_assigns(ctx, q0, c);
                if c >= allychains@.len() && next_on_core_spec(q0, thread_offset(ctx, c)) is None {
                    if is_scheduled_core(merged@, c) {
                        let t = choose|t: int| 0 <= t < merged@.len() && merged@[t].core.0 == c;
                        let a = merged@[t];
                        assert(merged@.contains(a));
                        if ctx.scheduled.contains(a) {
                            let u = choose|u: int| 0 <= u < ctx.scheduled.len() && ctx.scheduled[u] == a;
                            assert(ctx.scheduled[u].core.0 == c);
                        } else {
                            assert(ups.contains(a));
                            let u = choose|u: int| 0 <= u < ups.len() && ups[u] == a;
                            assert(ups[u].core.0 == c);
                        }
                    }
                }
            }
        }
        self.scheduled = merged;
    }

    /// Notes that the cores of `now_occupied`, a strictly ascending list of scheduled cores,
    /// became occupied: their assignments leave the schedule and occupy the cores.
    pub fn occupied(&mut self, now_occupied: &Vec<CoreIndex>)
        requires
            strictly_sorted_cores(old(self).scheduled@),
            strictly_sorted_core_indices(now_occupied@),
            forall|m: int| 0 <= m < now_occupied@.len()
                ==> #[trigger] is_scheduled_core(old(self).scheduled@, now_occupied@[m].0 as int),
            forall|t: int| 0 <= t < old(self).scheduled@.len() && now_occupied@.contains(old(self).scheduled@[t].core)
                ==> old(self).scheduled@[t].core.0 < old(self).availability_cores@.len(),
        ensures
            final(self).scheduled@ == old(self).scheduled@.filter(not_occupied_pred(now_occupied@)),
            final(self).availability_cores@.len() == old(self).availability_cores@.len(),
            forall|t: int| 0 <= t < old(self).scheduled@.len() && now_occupied@.contains(old(self).scheduled@[t].core)
                ==> final(self).availability_cores@[old(self).scheduled@[t].core.0 as int]
                    == Some(core_occupied_spec(old(self).scheduled@[t])),
            forall|i: int| 0 <= i < old(self).availability_cores@.len()
                && !occupied_by(old(self).scheduled@, now_occupied@, old(self).scheduled@.len() as int, i)
                ==> final(self).availability_cores@[i] == old(self).availability_cores@[i],
            final(self).validator_groups@ == old(self).validator_groups@,
            final(self).allythread_queue@ == old(self).allythread_queue@,
            final(self).allythread_claim_index@ == old(self).allythread_claim_index@,
            final(self).session_start_block == old(self).session_start_block,
            forall|config: HostConfiguration| old(self).wf(config) ==> final(self).wf(config),
            old(self).claim_index_sound() ==> final(self).claim_index_sound(),
    {
        let ghost sched = self.scheduled@;
        let ghost cores0 = self.availability_cores@;
        let ghost occ = now_occupied@;
        let ghost pred = not_occupied_pred(now_occupied@);
        let mut kept: Vec<CoreAssignment> = Vec::new();
        let mut k: usize = 0;
        let mut j: usize = 0;
        proof {
            assert(sched.take(0) =~= Seq::<CoreAssignment>::empty());
            reveal_with_fuel(Seq::filter, 1);
            assert forall|m: int| #![trigger occ[m]] k <= m < occ.len() implies scheduled_in(sched, occ[m], j as int, sched.len() as int) by {
                assert(is_scheduled_core(sched, occ[m].0 as int));
                let t = choose|t: int| 0 <= t < sched.len() && sched[t].core.0 == occ[m].0 as int;
                assert(sched[t].core == occ[m]);
                assert(scheduled_in(sched, occ[m], j as int, sched.len() as int));
            }
        }
        while j < self.scheduled.len()
            invariant
                sched == self.scheduled@,
                occ == now_occupied@,
                pred == not_occupied_pred(now_occupied@),
                strictly_sorted_cores(sched),
                strictly_sorted_core_indices(occ),
                forall|t: int| 0 <= t < sched.len() && occ.contains(sched[t].core) ==> sched[t].core.0 < cores0.len(),
                j <= sched.len(),
                k <= occ.len(),
                kept@ == sched.take(j as int).filter(pred),
                strictly_sorted_cores(kept@),
                forall|t: int, u: int| 0 <= t < kept@.len() && j <= u < sched.len() ==> kept@[t].core.0 < sched[u].core.0,
                forall|m: int| #![trigger occ[m]] 0 <= m < k ==> scheduled_in(sched, occ[m], 0, j as int),
                forall|m: int| #![trigger occ[m]] k <= m < occ.len() ==> scheduled_in(sched, occ[m], j as int, sched.len() as int),
                self.availability_cores@.len() == cores0.len(),
                forall|t: int| 0 <= t < j && occ.contains(sched[t].core)
                    ==> self.availability_cores@[sched[t].core.0 as int] == Some(core_occupied_spec(sched[t])),
                forall|i: int| 0 <= i < cores0.len() && !occupied_by(sched, occ, j as int, i)
                    ==> self.availability_cores@[i] == cores0[i],
                self.validator_groups@ == old(self).validator_groups@,
                self.allythread_queue@ == old(self).allythread_queue@,
                self.allythread_claim_index@ == old(self).allythread_claim_index@,
                self.session_start_block == old(self).session_start_block,
                sched == old(self).scheduled@,
                cores0 == old(self).availability_cores@,
                forall|x: AllyId| #![trigger scheduled_allies(kept@).count(x)]
                    scheduled_allies(kept@).count(x) + occupying_allies(self.availability_cores@).count(x)
                        <= scheduled_allies(sched.take(j as int)).count(x) + occupying_allies(cores0).count(x),
            decreases sched.len() - j,
        {
            let a = self.scheduled[j];
            proof {
                assert(sched.take(j + 1) =~= sched.take(j as int).push(a));
                sched.take(j as int).lemma_filter_push(a, pred);
            }
            let matched = k < now_occupied.len() && now_occupied[k].0 == a.core.0;
            let ghost cores_before = self.availability_cores@;
            let ghost kept_before = kept@;
            proof {
                lemma_scheduled_push(sched.take(j as int), a);
            }
            if matched {
                proof {
                    assert(now_occupied@[k as int] == a.core);
                    assert(occ.contains(a.core));
                }
                self.availability_cores.set(a.core.0 as usize, Some(a.to_core_occupied()));
                proof {
                    lemma_occupying_update(cores_before, a.core.0 as int, Some(core_occupied_spec(a)));
                    assert(occupant_ally(Some(core_occupied_spec(a))) == assigned_ally(a));
                    let occ_new = occupying_allies(self.availability_cores@);
                    let occ_old = occupying_allies(cores_before);
                    assert forall|x: AllyId| #![trigger scheduled_allies(kept@).count(x)]
                        scheduled_allies(kept@).count(x) + occupying_allies(self.availability_cores@).count(x)
                            <= scheduled_allies(sched.take(j + 1)).count(x) + occupying_allies(cores0).count(x) by {
                        assert(occ_new.add(occupant_ally(cores_before[a.core.0 as int])).count(x)
                            == occ_old.add(assigned_ally(a)).count(x));
                        assert(scheduled_allies(kept_before).count(x) + occ_old.count(x)
                            <= scheduled_allies(sched.take(j as int)).count(x) + occupying_allies(cores0).count(x));
                    }
                }
                k = k + 1;
                proof {
                    assert forall|m: int| #![trigger occ[m]] k <= m < occ.len() implies scheduled_in(sched, occ[m], j + 1, sched.len() as int) by {
                        let t = choose|t: int| j <= t < sched.len() && sched[t].core == occ[m];
                        assert(occ[m].0 > occ[k - 1].0);
                        assert(t != j);
                    }
                    assert forall|m: int| #![trigger occ[m]] 0 <= m < k implies scheduled_in(sched, occ[m], 0, j + 1) by {
                        if m < k - 1 {
                            let t = choose|t: int| 0 <= t < j && sched[t].core == occ[m];
                            assert(sched[t].core == occ[m]);
                        } else {
                            assert(sched[j as int].core == occ[m]);
                        }
                    }
                }
            } else {
                proof {
                    assert forall|m: int| 0 <= m < occ.len() implies occ[m] != a.core by {
                        if m < k {
                            let t = choose|t: int| 0 <= t < j && sched[t].core == occ[m];
                            assert(sched[t].core.0 < sched[j as int].core.0);
                        } else {
                            let t = choose|t: int| j <= t < sched.len() && sched[t].core == occ[m];
                            if occ[m] == a.core {
                                assert(t == j);
                                if m > k {
                                    let t2 = choose|t2: int| j <= t2 < sched.len() && sched[t2].core == occ[k as int];
                                    assert(occ[k as int].0 < occ[m].0);
                                    assert(sched[t2].core.0 >= sched[j as int].core.0);
                                }
                            }
                        }
                    }
                    assert(!occ.contains(a.core));
                    assert forall|m: int| #![trigger occ[m]] k <= m < occ.len() implies scheduled_in(sched, occ[m], j + 1, sched.len() as int) by {
                        let t = choose|t: int| j <= t < sched.len() && sched[t].core == occ[m];
                        assert(occ[m] != a.core);
                        assert(t != j);
                    }
                    assert forall|m: int| #![trigger occ[m]] 0 <= m < k implies scheduled_in(sched, occ[m], 0, j + 1) by {
                        let t = choose|t: int| 0 <= t < j && sched[t].core == occ[m];
                        assert(sched[t].core == occ[m]);
                    }
                }
                kept.push(a);
                proof {
                    lemma_scheduled_push(kept_before, a);
                    assert forall|x: AllyId| #![trigger scheduled_allies(kept@).count(x)]
                        scheduled_allies(kept@).count(x) + occupying_allies(self.availability_cores@).count(x)
                            <= scheduled_allies(sched.take(j + 1)).count(x) + occupying_allies(cores0).count(x) by {
                        assert(scheduled_allies(kept_before).count(x) + occupying_allies(cores_before).count(x)
                            <= scheduled_allies(sched.take(j as int)).count(x) + occupying_allies(cores0).count(x));
                    }
                }
            }
            proof {
                assert forall|t: int| 0 <= t < j + 1 && occ.contains(sched[t].core)
                    implies self.availability_cores@[sched[t].core.0 as int] == Some(core_occupied_spec(sched[t])) by {
                    if t < j {
                        assert(sched[t].core.0 < a.core.0);
                    }
                }
                assert forall|i: int| 0 <= i < cores0.len() && !occupied_by(sched, occ, j + 1, i)
                    implies self.availability_cores@[i] == cores0[i] by {
                    if occupied_by(sched, occ, j as int, i) {
                        let t = choose|t: int| 0 <= t < j && sched[t].core.0 == i && occ.contains(sched[t].core);
                        assert(occupied_by(sched, occ, j + 1, i));
                    }
                    if matched && i == a.core.0 {
                        assert(occupied_by(sched, occ, j + 1, i));
                    }
                }
            }
            j = j + 1;
        }
        proof {
            assert(sched.take(j as int) =~= sched);
            if old(self).claim_index_sound() {
                let q = queued_allies(self.allythread_queue@.queue);
                let h0 = held_claims(self.allythread_queue@.queue, sched, cores0);
                let h1 = held_claims(self.allythread_queue@.queue, kept@, self.availability_cores@);
                let ix = Set::new(|x: AllyId| self.allythread_claim_index@.contains(x));
                assert forall|x: AllyId| #[trigger] h1.count(x) <= h0.count(x) by {
                    assert(scheduled_allies(kept@).count(x) + occupying_allies(self.availability_cores@).count(x)
                        <= scheduled_allies(sched.take(j as int)).count(x) + occupying_allies(cores0).count(x));
                }
                lemma_claims_sound_fewer(h0, ix, h1, ix);
            }
        }
        self.scheduled = kept;
    }

    /// Empties the schedule; the allythread claims scheduled whose ally is still in
    /// `allythreads` go back to the queue with one more retry, unless that exceeds the
    /// allowed retries.
    pub fn clear(&mut self, config: &HostConfiguration, allythreads: &Vec<AllyId>)
        requires
            requeue_all_safe(
                old(self).allythread_queue@,
                old(self).scheduled@,
                allythreads@,
                config.allythread_retries,
                config.allythread_cores,
            ),
        ensures
            final(self).scheduled@ == Seq::<CoreAssignment>::empty(),
            final(self).allythread_queue@ == requeue_all(
                old(self).allythread_queue@,
                old(self).scheduled@,
                allythreads@,
                config.allythread_retries,
                config.allythread_cores,
            ),
            final(self).validator_groups@ == old(self).validator_groups@,
            final(self).availability_cores@ == old(self).availability_cores@,
            final(self).allythread_claim_index@ == old(self).allythread_claim_index@,
            final(self).session_start_block == old(self).session_start_block,
            old(self).wf(*config) ==> final(self).wf(*config),
            old(self).claim_index_sound() ==> final(self).claim_index_sound(),
    {
        let ghost live = allythreads@;
        let ghost q0 = self.allythread_queue@;
        let ghost s = self.scheduled@;
        let mut i: usize = 0;
        proof {
            assert(s.take(0) =~= Seq::<CoreAssignment>::empty());
        }
        while i < self.scheduled.len()
            invariant
                live == allythreads@,
                s == self.scheduled@,
                q0 == old(self).allythread_queue@,
                s == old(self).scheduled@,
                requeue_all_safe(q0, s, live, config.allythread_retries, config.allythread_cores),
                i <= s.len(),
                self.allythread_queue@ == requeue_all(q0, s.take(i as int), live, config.allythread_retries, config.allythread_cores),
                self.validator_groups@ == old(self).validator_groups@,
                self.availability_cores@ == old(self).availability_cores@,
                self.allythread_claim_index@ == old(self).allythread_claim_index@,
                self.session_start_block == old(self).session_start_block,
            decreases s.len() - i,
        {
            let a = self.scheduled[i];
            proof {
                assert(s.take(i + 1).drop_last() =~= s.take(i as int));
                assert(s.take(i + 1).last() == a);
                lemma_requeue_all_safe_prefix(q0, s, live, config.allythread_retries, config.allythread_cores, i + 1);
            }
            match a.kind {
                AssignmentKind::Allythread(collator, retries) => {
                    if contains_ally(allythreads, a.ally_id) {
                        let entry = AllythreadEntry { claim: AllythreadClaim(a.ally_id, collator), retries: retries + 1 };
                        if entry.retries <= config.allythread_retries {
                            self.allythread_queue.enqueue_entry(entry, config.allythread_cores);
                        }
                    }
                },
                AssignmentKind::Allychain => {},
            }
            i = i + 1;
        }
        proof {
            assert(s.take(i as int) =~= s);
            if old(self).wf(*config) {
                lemma_requeue_all_wf(q0, s, live, config.allythread_retries, config.allythread_cores);
            }
        }
        self.scheduled = Vec::new();
        proof {
            if old(self).claim_index_sound() {
                let h0 = held_claims(q0.queue, s, self.availability_cores@);
                let h1 = held_claims(self.allythread_queue@.queue, self.scheduled@, self.availability_cores@);
                let ix = Set::new(|x: AllyId| self.allythread_claim_index@.contains(x));
                assert(scheduled_allies(self.scheduled@) =~= Multiset::<AllyId>::empty());
                assert forall|x: AllyId| #[trigger] h1.count(x) <= h0.count(x) by {
                    lemma_requeue_all_claims(q0, s, live, config.allythread_retries, config.allythread_cores, x);
                }
                lemma_claims_sound_fewer(h0, ix, h1, ix);
            }
        }
    }

    /// The group assigned to `core` at block `at`: `None` where `at` is before the session
    /// start or `core` has no group.
    pub fn group_assigned_to_core(&self, core: CoreIndex, at: BlockNumber, config: &HostConfiguration) -> (group: Option<GroupIndex>)
        requires
            at >= self.session_start_block && core.0 < self.validator_groups@.len() ==> config.group_rotation_frequency > 0,
        ensures
            group == group_for_core_spec(
                core,
                at,
                self.session_start_block,
                config.group_rotation_frequency,
                self.validator_groups@.len() as int,
            ),
    {
        if at < self.session_start_block {
            return None;
        }
        let n_groups = self.validator_groups.len();
        if core.0 as usize >= n_groups {
            return None;
        }
        let rotations: u32 = (at - self.session_start_block) / config.group_rotation_frequency;
        let idx: u64 = (core.0 as u64 + rotations as u64) % (n_groups as u64);
        Some(GroupIndex(idx as u32))
    }

    /// The validators in group `group_index`, if there is such a group.
    pub fn group_validators(&self, group_index: GroupIndex) -> (validators: Option<Vec<ValidatorIndex>>)
        ensures
            match validators {
                Some(v) => group_index.0 < self.validator_groups@.len()
                    && v@ == self.validator_groups@[group_index.0 as int]@,
                None => group_index.0 >= self.validator_groups@.len(),
            },
    {
        if (group_index.0 as usize) < self.validator_groups.len() {
            let g = &self.validator_groups[group_index.0 as usize];
            let mut out: Vec<ValidatorIndex> = Vec::new();
            let mut i: usize = 0;
            while i < g.len()
                invariant
                    i <= g.len(),
                    out@ == g@.take(i as int),
                decreases g.len() - i,
            {
                out.push(g[i]);
                i = i + 1;
                proof {
                    assert(out@ =~= g@.take(i as int));
                }
            }
            proof {
                assert(g@.take(i as int) =~= g@);
            }
            Some(out)
        } else {
            None
        }
    }

    /// What the group rotation at block `now` depends on.
    pub fn group_rotation_info(&self, now: BlockNumber, config: &HostConfiguration) -> (info: GroupRotationInfo)
        ensures
            info == (GroupRotationInfo {
                session_start_block: self.session_start_block,
                group_rotation_frequency: config.group_rotation_frequency,
                now,
            }),
    {
        GroupRotationInfo {
            session_start_block: self.session_start_block,
            group_rotation_frequency: config.group_rotation_frequency,
            now,
        }
    }

    /// The predicate for timing out occupied cores at block `now`, or `None` where no core
    /// should time out: only within the longer availability period after a rotation does it
    /// return one.
    pub fn availability_timeout_predicate(&self, now: BlockNumber, config: &HostConfiguration) -> (pred: Option<AvailabilityTimeoutPredicate>)
        requires
            config.group_rotation_frequency > 0,
        ensures
            ({
                let since_rotation = (saturating_sub_spec(now, self.session_start_block) as int
                    % (config.group_rotation_frequency as int)) as u32;
                let cutoff = if config.chain_availability_period >= config.thread_availability_period {
                    config.chain_availability_period
                } else {
                    config.thread_availability_period
                };
                match pred {
                    None => since_rotation >= cutoff,
                    Some(p) => since_rotation < cutoff
                        && p.availability_cores@ == self.availability_cores@
                        && p.now == now
                        && p.blocks_since_last_rotation == since_rotation
                        && p.chain_availability_period == config.chain_availability_period
                        && p.thread_availability_period == config.thread_availability_period,
                }
            }),
    {
        let since_start = saturating_sub_u32(now, self.session_start_block);
        let since_rotation = since_start % config.group_rotation_frequency;
        let cutoff = if config.chain_availability_period >= config.thread_availability_period {
            config.chain_availability_period
        } else {
            config.thread_availability_period
        };
        if since_rotation >= cutoff {
            None
        } else {
            Some(AvailabilityTimeoutPredicate {
                availability_cores: copy_cores(&self.availability_cores),
                now,
                blocks_since_last_rotation: since_rotation,
                chain_availability_period: config.chain_availability_period,
                thread_availability_period: config.thread_availability_period,
            })
        }
    }
}

} // verus!
