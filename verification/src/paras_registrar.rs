//! Registration of allythreads and allychains, and the deposits held for them.
//!
//! An account reserves an ally id, then registers head data and validation code for it;
//! the allychains machinery onboards it as an allythread, which may later be upgraded to
//! an allychain, swapped with another ally, or deregistered.
//!
//! An operation first decides, without changing anything: it refuses with an error, or it
//! returns a [`Prepared`] outcome. That names at most one call into another runtime module
//! that may still refuse the operation (reserving a deposit, or scheduling a lifecycle
//! change), the changes to the registrar's state, and the calls to make afterwards, whose
//! failures do not matter. The runtime makes the first call and hands its outcome to
//! [`Pallet::commit`], which refuses the operation, writing nothing, where that call failed,
//! and otherwise applies the changes and returns the calls to make afterwards.
use vstd::prelude::*;
use std::collections::BTreeMap;
use crate::primitives::{AccountId, AllyId, Balance, HostConfiguration, LOWEST_PUBLIC_ID, Weight};

verus! {

/// What the registrar records of a registered or reserved ally.
#[derive(Clone, Copy, Debug, PartialEq, Eq)]
pub struct ParaInfo {
    /// The account that placed the deposit and manages the ally.
    pub manager: AccountId,
    /// The amount reserved by the manager for the registration.
    pub deposit: Balance,
    /// Whether the manager is locked out of controlling the ally.
    pub locked: bool,
}

/// The lifecycle of an ally, as the allychains module tracks it.
#[derive(Clone, Copy, Debug, PartialEq, Eq, Structural)]
pub enum ParaLifecycle {
    /// Being onboarded; becomes an allythread.
    Onboarding,
    /// An allythread.
    Allythread,
    /// An allychain.
    Allychain,
    /// An allythread being upgraded to an allychain.
    UpgradingAllythread,
    /// An allychain being downgraded to an allythread.
    DowngradingAllychain,
    /// An allythread being offboarded.
    OffboardingAllythread,
    /// An allychain being offboarded.
    OffboardingAllychain,
}

/// The lifecycle treats the ally as an allychain, transitions included.
pub open spec fn is_allychain_spec(l: ParaLifecycle) -> bool {
    l == ParaLifecycle::Allychain || l == ParaLifecycle::DowngradingAllychain || l == ParaLifecycle::OffboardingAllychain
}

/// The lifecycle treats the ally as an allythread, transitions included.
pub open spec fn is_allythread_spec(l: ParaLifecycle) -> bool {
    l == ParaLifecycle::Allythread || l == ParaLifecycle::UpgradingAllythread || l == ParaLifecycle::OffboardingAllythread
}

impl ParaLifecycle {
    /// Whether the ally counts as an allychain, transitions included.
    pub fn is_allychain(&self) -> (r: bool)
        ensures
            r == is_allychain_spec(*self),
    {
        match self {
            ParaLifecycle::Allychain | ParaLifecycle::DowngradingAllychain | ParaLifecycle::OffboardingAllychain => true,
            _ => false,
        }
    }

    /// Whether the ally counts as an allythread, transitions included.
    pub fn is_allythread(&self) -> (r: bool)
        ensures
            r == is_allythread_spec(*self),
    {
        match self {
            ParaLifecycle::Allythread | ParaLifecycle::UpgradingAllythread | ParaLifecycle::OffboardingAllythread => true,
            _ => false,
        }
    }
}

/// Where a call comes from.
#[derive(Clone, Copy, Debug, PartialEq, Eq)]
pub enum Origin {
    /// Governance.
    Root,
    /// A signed account.
    Signed(AccountId),
    /// An allychain.
    Allychain(AllyId),
    /// No origin: an unsigned call.
    Unsigned,
}

/// Errors of the registrar.
#[derive(Clone, Copy, Debug, PartialEq, Eq, Structural)]
pub enum Error {
    /// The ID is not registered.
    NotRegistered,
    /// The ID is already registered.
    AlreadyRegistered,
    /// The caller is not the owner of this Id.
    NotOwner,
    /// Invalid ally code size.
    CodeTooLarge,
    /// Invalid ally head data size.
    HeadDataTooLarge,
    /// Ally is not an Allychain.
    NotAllychain,
    /// Ally is not an Allythread.
    NotAllythread,
    /// Cannot deregister para.
    CannotDeregister,
    /// Cannot schedule downgrade of allychain to allythread.
    CannotDowngrade,
    /// Cannot schedule upgrade of allythread to allychain.
    CannotUpgrade,
    /// Ally is locked from manipulation by the manager. Must use allychain or relay chain governance.
    ParaLocked,
    /// The ID given for registration has not been reserved.
    NotReserved,
    /// Registering allychain with empty code is not allowed.
    EmptyCode,
}

/// Why a call was refused.
#[derive(Clone, Copy, Debug, PartialEq, Eq, Structural)]
pub enum DispatchError {
    /// The origin may not make the call.
    BadOrigin,
    /// The registrar refused the call.
    Module(Error),
    /// Another runtime module refused the call, with its error code.
    Other(u32),
}

/// Events of the registrar.
#[derive(Clone, Copy, Debug, PartialEq, Eq)]
pub enum Event {
    /// An ally was registered by an account.
    Registered(AllyId, AccountId),
    /// An ally was deregistered.
    Deregistered(AllyId),
    /// An ally id was reserved by an account.
    Reserved(AllyId, AccountId),
}

/// The genesis head data of an ally.
#[derive(Clone, Debug, PartialEq, Eq)]
pub struct HeadData(pub Vec<u8>);

/// The validation code of an ally.
#[derive(Clone, Debug, PartialEq, Eq)]
pub struct ValidationCode(pub Vec<u8>);

/// What the allychains module needs to onboard an ally.
#[derive(Clone, Debug, PartialEq, Eq)]
pub struct ParaGenesisArgs {
    /// The genesis head data.
    pub genesis_head: HeadData,
    /// The initial validation code.
    pub validation_code: ValidationCode,
    /// Whether the ally starts as an allychain.
    pub allychain: bool,
}

/// A call into another runtime module.
#[derive(Clone, Debug, PartialEq, Eq)]
pub enum OutsideCall {
    /// Reserve an amount of an account's balance.
    Reserve(AccountId, Balance),
    /// Unreserve an amount of an account's balance.
    Unreserve(AccountId, Balance),
    /// Schedule an ally to be onboarded.
    ScheduleParaInitialize(AllyId, ParaGenesisArgs),
    /// Schedule an ally to be offboarded.
    ScheduleParaCleanup(AllyId),
    /// Schedule an allythread to become an allychain.
    ScheduleAllythreadUpgrade(AllyId),
    /// Schedule an allychain to become an allythread.
    ScheduleAllychainDowngrade(AllyId),
    /// Tell the runtime that two allies swapped.
    OnSwap(AllyId, AllyId),
    /// Deposit an event.
    DepositEvent(Event),
}

/// What a failure of an outside call does to the operation that asked for it.
#[derive(Clone, Copy, Debug, PartialEq, Eq)]
pub enum OnFailure {
    /// The operation fails with the call's own error.
    Propagate,
    /// The operation fails with this registrar error.
    Fail(Error),
}

/// An outside call that may refuse the operation that asks for it.
#[derive(Clone, Debug, PartialEq, Eq)]
pub struct Effect {
    /// The call.
    pub call: OutsideCall,
    /// What a failure of the call does.
    pub on_failure: OnFailure,
}

/// A change to the registrar's state.
#[derive(Clone, Copy, Debug, PartialEq, Eq)]
pub enum Change {
    /// Record an ally and what is held for it.
    InsertPara(AllyId, ParaInfo),
    /// Forget an ally.
    RemovePara(AllyId),
    /// Set the lock flag of a recorded ally.
    SetLock(AllyId, bool),
    /// Record that the first ally asked to swap with the second.
    InsertSwap(AllyId, AllyId),
    /// Forget the swap that an ally asked for.
    RemoveSwap(AllyId),
    /// Set the next free id.
    SetNextFree(AllyId),
}

/// What an accepted operation does once the runtime has made its first call.
#[derive(Clone, Debug, PartialEq, Eq)]
pub struct Prepared {
    /// The call to make first, which may refuse the operation.
    pub guard: Option<Effect>,
    /// The changes to the registrar's state, in order.
    pub changes: Vec<Change>,
    /// The calls to make afterwards, in order; their failures are ignored.
    pub calls: Vec<OutsideCall>,
}

/// The registrar's configured deposits.
#[derive(Clone, Copy, Debug, PartialEq, Eq)]
pub struct Config {
    /// The deposit for reserving or registering an ally.
    pub para_deposit: Balance,
    /// The deposit per byte of head data and validation code.
    pub data_deposit_per_byte: Balance,
}

/// The state of the registrar.
#[derive(Clone, Debug)]
pub struct Pallet {
    /// The registered or reserved allies, by raw id, and what is held for them.
    pub paras: BTreeMap<u32, ParaInfo>,
    /// Pending swaps: the first ally asked to swap with the second (raw ids).
    pub pending_swap: BTreeMap<u32, u32>,
    /// The next ally id that `reserve` may hand out.
    pub next_free_ally_id: AllyId,
}

/// What is held on deposit for `id`, zero where nothing is recorded.
pub open spec fn deposit_of(paras: Map<u32, ParaInfo>, id: AllyId) -> int {
    if paras.contains_key(id.0) { paras[id.0].deposit as int } else { 0 }
}

/// The amount that `calls` reserve, less the amount they unreserve.
pub open spec fn reserve_delta(calls: Seq<OutsideCall>) -> int
    decreases calls.len(),
{
    if calls.len() == 0 {
        0
    } else {
        reserve_delta(calls.drop_last()) + delta_of(calls.last())
    }
}

/// The amount that `c` reserves, negative where it unreserves.
pub open spec fn delta_of(c: OutsideCall) -> int {
    match c {
        OutsideCall::Reserve(_, amount) => amount as int,
        OutsideCall::Unreserve(_, amount) => -(amount as int),
        _ => 0,
    }
}

/// Appending a call adds what it reserves.
pub proof fn lemma_reserve_delta_push(s: Seq<OutsideCall>, c: OutsideCall)
    ensures
        reserve_delta(s.push(c)) == reserve_delta(s) + delta_of(c),
{
    assert(s.push(c).drop_last() =~= s);
}

/// What an accepted operation reserves, net, once carried out: its first call and the
/// calls after.
pub open spec fn prepared_delta(p: Prepared) -> int {
    (match p.guard {
        Some(g) => delta_of(g.call),
        None => 0,
    }) + reserve_delta(p.calls@)
}

/// The mathematical value of the registrar's state.
pub struct RegistrarState {
    pub paras: Map<u32, ParaInfo>,
    pub pending_swap: Map<u32, u32>,
    pub next_free_ally_id: AllyId,
}

/// The state after one change.
pub open spec fn apply_change(st: RegistrarState, c: Change) -> RegistrarState {
    match c {
        Change::InsertPara(id, info) => RegistrarState { paras: st.paras.insert(id.0, info), ..st },
        Change::RemovePara(id) => RegistrarState { paras: st.paras.remove(id.0), ..st },
        Change::SetLock(id, locked) => RegistrarState { paras: with_lock(st.paras, id, locked), ..st },
        Change::InsertSwap(id, other) => RegistrarState { pending_swap: st.pending_swap.insert(id.0, other.0), ..st },
        Change::RemoveSwap(id) => RegistrarState { pending_swap: st.pending_swap.remove(id.0), ..st },
        Change::SetNextFree(id) => RegistrarState { next_free_ally_id: id, ..st },
    }
}

/// The state after the changes, in order.
pub open spec fn apply_changes(st: RegistrarState, cs: Seq<Change>) -> RegistrarState
    decreases cs.len(),
{
    if cs.len() == 0 {
        st
    } else {
        apply_change(apply_changes(st, cs.drop_last()), cs.last())
    }
}

/// `a + b`, capped at the largest balance.
pub open spec fn saturating_add_spec(a: u128, b: u128) -> u128 {
    if a + b > u128::MAX { u128::MAX } else { (a + b) as u128 }
}

/// `a * b`, capped at the largest balance.
pub open spec fn saturating_mul_spec(a: u128, b: u128) -> u128 {
    if a * b > u128::MAX { u128::MAX } else { (a * b) as u128 }
}

fn saturating_add_u128(a: u128, b: u128) -> (r: u128)
    ensures
        r == saturating_add_spec(a, b),
{
    match a.checked_add(b) {
        Some(r) => r,
        None => u128::MAX,
    }
}

fn saturating_mul_u128(a: u128, b: u128) -> (r: u128)
    ensures
        r == saturating_mul_spec(a, b),
{
    match a.checked_mul(b) {
        Some(r) => r,
        None => u128::MAX,
    }
}

/// The deposit for onboarding head data and validation code of the given lengths: the ally
/// deposit plus the per-byte deposit for each byte of either, each step capped.
pub open spec fn onboarding_deposit(cfg: Config, head_len: int, code_len: int) -> u128 {
    saturating_add_spec(
        saturating_add_spec(cfg.para_deposit, saturating_mul_spec(cfg.data_deposit_per_byte, (head_len as u32) as u128)),
        saturating_mul_spec(cfg.data_deposit_per_byte, (code_len as u32) as u128),
    )
}

/// Short of the cap on balances, the onboarding deposit is the ally deposit plus the
/// per-byte deposit on every byte of head data and of validation code.
pub proof fn lemma_onboarding_deposit_exact(cfg: Config, head_len: int, code_len: int)
    requires
        0 <= head_len <= u32::MAX,
        0 <= code_len <= u32::MAX,
        cfg.para_deposit + cfg.data_deposit_per_byte * (head_len + code_len) <= u128::MAX,
    ensures
        onboarding_deposit(cfg, head_len, code_len) == cfg.para_deposit + cfg.data_deposit_per_byte * (head_len + code_len),
{
    let p = cfg.data_deposit_per_byte as int;
    assert((head_len as u32) as u128 == head_len);
    assert((code_len as u32) as u128 == code_len);
    assert(p * (head_len + code_len) == p * head_len + p * code_len) by (nonlinear_arith);
    assert(p * head_len >= 0 && p * code_len >= 0) by (nonlinear_arith)
        requires
            p >= 0,
            head_len >= 0,
            code_len >= 0,
    ;
}

/// Why head data and validation code of the given lengths cannot be onboarded, if they cannot.
pub open spec fn onboarding_error(host: HostConfiguration, head_len: int, code_len: int) -> Option<Error> {
    if code_len == 0 {
        Some(Error::EmptyCode)
    } else if code_len > host.max_code_size {
        Some(Error::CodeTooLarge)
    } else if head_len > host.max_head_data_size {
        Some(Error::HeadDataTooLarge)
    } else {
        None
    }
}

/// Whether `origin` may manage `id`: governance, the ally itself, or its manager while the
/// ally is not locked.
pub open spec fn may_manage(paras: Map<u32, ParaInfo>, origin: Origin, id: AllyId) -> bool {
    match origin {
        Origin::Root => true,
        Origin::Allychain(caller) => caller == id,
        Origin::Signed(who) => paras.contains_key(id.0) && !paras[id.0].locked && paras[id.0].manager == who,
        Origin::Unsigned => false,
    }
}

/// Why `who` cannot register `id`, if it cannot.
pub open spec fn register_error(
    paras: Map<u32, ParaInfo>,
    who: AccountId,
    id: AllyId,
    ensure_reserved: bool,
    lifecycle: Option<ParaLifecycle>,
    host: HostConfiguration,
    head_len: int,
    code_len: int,
) -> Option<Error> {
    if paras.contains_key(id.0) && paras[id.0].manager != who {
        Some(Error::NotOwner)
    } else if paras.contains_key(id.0) && paras[id.0].locked {
        Some(Error::ParaLocked)
    } else if !paras.contains_key(id.0) && ensure_reserved {
        Some(Error::NotReserved)
    } else if lifecycle is Some {
        Some(Error::AlreadyRegistered)
    } else {
        onboarding_error(host, head_len, code_len)
    }
}

/// Where the deposit grows from `deposited` to `deposit`, the reservation of the difference,
/// which may refuse the operation.
pub open spec fn deposit_guard(who: AccountId, deposited: u128, deposit: u128) -> Option<Effect> {
    if deposit >= deposited {
        Some(Effect { call: OutsideCall::Reserve(who, (deposit - deposited) as u128), on_failure: OnFailure::Propagate })
    } else {
        None
    }
}

/// Where the deposit shrinks from `deposited` to `deposit`, the release of the difference.
pub open spec fn deposit_release(who: AccountId, deposited: u128, deposit: u128) -> Seq<OutsideCall> {
    if deposit >= deposited {
        Seq::empty()
    } else {
        seq![OutsideCall::Unreserve(who, (deposited - deposit) as u128)]
    }
}

/// The id that `reserve` hands out next: the next free id, but at least the lowest public id.
pub open spec fn next_reservable_spec(next_free: AllyId) -> AllyId {
    if next_free.0 >= LOWEST_PUBLIC_ID { next_free } else { AllyId(LOWEST_PUBLIC_ID) }
}

/// `paras` with the lock flag of `id` set to `locked`, where `id` is recorded.
pub open spec fn with_lock(paras: Map<u32, ParaInfo>, id: AllyId, locked: bool) -> Map<u32, ParaInfo> {
    if paras.contains_key(id.0) {
        paras.insert(id.0, ParaInfo { locked, ..paras[id.0] })
    } else {
        paras
    }
}

/// `other` already asked to swap with `id`.
pub open spec fn swap_requested(pending: Map<u32, u32>, id: AllyId, other: AllyId) -> bool {
    pending.contains_key(other.0) && pending[other.0] == id.0
}

/// The pending swaps after `id` asks to swap with `other`: where `other` asked first and
/// both have a lifecycle, its request is used up; where it did not ask, `id`'s request is
/// recorded.
pub open spec fn swap_pending_spec(
    pending: Map<u32, u32>,
    id: AllyId,
    other: AllyId,
    id_lifecycle: Option<ParaLifecycle>,
    other_lifecycle: Option<ParaLifecycle>,
) -> Map<u32, u32> {
    if swap_requested(pending, id, other) {
        if id_lifecycle is Some && other_lifecycle is Some { pending.remove(other.0) } else { pending }
    } else {
        pending.insert(id.0, other.0)
    }
}

/// The calls a swap makes: where `other` asked first and one of the two is an allychain and
/// the other an allythread, the allychain is downgraded, the allythread upgraded, and the
/// runtime told of the swap.
pub open spec fn swap_effects(
    pending: Map<u32, u32>,
    id: AllyId,
    other: AllyId,
    id_lifecycle: Option<ParaLifecycle>,
    other_lifecycle: Option<ParaLifecycle>,
) -> Seq<OutsideCall> {
    if swap_requested(pending, id, other) && id_lifecycle is Some && other_lifecycle is Some {
        let il = id_lifecycle->Some_0;
        let ol = other_lifecycle->Some_0;
        if is_allychain_spec(il) && is_allythread_spec(ol) {
            seq![
                OutsideCall::ScheduleAllychainDowngrade(id),
                OutsideCall::ScheduleAllythreadUpgrade(other),
                OutsideCall::OnSwap(id, other),
            ]
        } else if is_allythread_spec(il) && is_allychain_spec(ol) {
            seq![
                OutsideCall::ScheduleAllychainDowngrade(other),
                OutsideCall::ScheduleAllythreadUpgrade(id),
                OutsideCall::OnSwap(id, other),
            ]
        } else {
            Seq::empty()
        }
    } else {
        Seq::empty()
    }
}

/// The changes a swap makes to the pending swaps: where `other` asked first and both have a
/// lifecycle, its request is used up; where it did not ask, `id`'s request is recorded.
pub open spec fn swap_changes(
    pending: Map<u32, u32>,
    id: AllyId,
    other: AllyId,
    id_lifecycle: Option<ParaLifecycle>,
    other_lifecycle: Option<ParaLifecycle>,
) -> Seq<Change> {
    if swap_requested(pending, id, other) {
        if id_lifecycle is Some && other_lifecycle is Some { seq![Change::RemoveSwap(other)] } else { Seq::empty() }
    } else {
        seq![Change::InsertSwap(id, other)]
    }
}

/// One change applies as itself.
pub proof fn lemma_apply_changes_one(st: RegistrarState, c: Change)
    ensures
        apply_changes(st, seq![c]) == apply_change(st, c),
{
    assert(seq![c].drop_last() =~= Seq::<Change>::empty());
    assert(apply_changes(st, Seq::<Change>::empty()) == st);
}

/// Two changes apply one after the other.
pub proof fn lemma_apply_changes_two(st: RegistrarState, c1: Change, c2: Change)
    ensures
        apply_changes(st, seq![c1, c2]) == apply_change(apply_change(st, c1), c2),
{
    assert(seq![c1, c2].drop_last() =~= seq![c1]);
    lemma_apply_changes_one(st, c1);
}

/// Head data or validation code of `n` zero bytes.
fn zero_bytes(n: u32) -> (v: Vec<u8>)
    ensures
        v@.len() == n,
        forall|i: int| 0 <= i < n ==> v@[i] == 0,
{
    let mut v: Vec<u8> = Vec::new();
    let mut i: u32 = 0;
    while i < n
        invariant
            i <= n,
            v@.len() == i,
            forall|k: int| 0 <= k < i ==> v@[k] == 0,
        decreases n - i,
    {
        v.push(0);
        i = i + 1;
    }
    v
}

/// Checks head data and validation code against the host configuration and works out the
/// deposit for them.
pub fn validate_onboarding_data(
    genesis_head: HeadData,
    validation_code: ValidationCode,
    allychain: bool,
    host: &HostConfiguration,
    cfg: &Config,
) -> (r: Result<(ParaGenesisArgs, Balance), Error>)
    ensures
        ({
            let err = onboarding_error(*host, genesis_head.0@.len() as int, validation_code.0@.len() as int);
            match r {
                Err(e) => err == Some(e),
                Ok((args, deposit)) => {
                    let head_len = genesis_head.0@.len() as int;
                    let code_len = validation_code.0@.len() as int;
                    &&& err is None
                    &&& args == (ParaGenesisArgs { genesis_head, validation_code, allychain })
                    &&& deposit == onboarding_deposit(*cfg, head_len, code_len)
                    &&& cfg.para_deposit + cfg.data_deposit_per_byte * (head_len + code_len) <= u128::MAX
                        ==> deposit == cfg.para_deposit + cfg.data_deposit_per_byte * (head_len + code_len)
                },
            }
        }),
{
    let code_len = validation_code.0.len();
    let head_len = genesis_head.0.len();
    if code_len == 0 {
        return Err(Error::EmptyCode);
    }
    if code_len > host.max_code_size as usize {
        return Err(Error::CodeTooLarge);
    }
    if head_len > host.max_head_data_size as usize {
        return Err(Error::HeadDataTooLarge);
    }
    let per_byte = cfg.data_deposit_per_byte;
    let deposit = saturating_add_u128(
        saturating_add_u128(cfg.para_deposit, saturating_mul_u128(per_byte, head_len as u32 as u128)),
        saturating_mul_u128(per_byte, code_len as u32 as u128),
    );
    proof {
        if cfg.para_deposit + cfg.data_deposit_per_byte * (head_len + code_len) <= u128::MAX {
            lemma_onboarding_deposit_exact(*cfg, head_len as int, code_len as int);
        }
    }
    Ok((ParaGenesisArgs { genesis_head, validation_code, allychain }, deposit))
}

impl Pallet {
    /// An empty registrar whose next free id is zero.
    pub fn new() -> (p: Self)
        ensures
            p.paras@ == Map::<u32, ParaInfo>::empty(),
            p.pending_swap@ == Map::<u32, u32>::empty(),
            p.next_free_ally_id == AllyId(0),
    {
        Pallet { paras: BTreeMap::new(), pending_swap: BTreeMap::new(), next_free_ally_id: AllyId(0) }
    }

    /// The manager of `id`, if it is recorded.
    pub fn manager_of(&self, id: AllyId) -> (m: Option<AccountId>)
        ensures
            m == (if self.paras@.contains_key(id.0) { Some(self.paras@[id.0].manager) } else { None }),
    {
        match self.paras.get(&id.0) {
            Some(info) => Some(info.manager),
            None => None,
        }
    }

    /// Locks the manager out of `id`, where it is recorded.
    pub fn apply_lock(&mut self, id: AllyId)
        ensures
            final(self).paras@ == with_lock(old(self).paras@, id, true),
            final(self).pending_swap@ == old(self).pending_swap@,
            final(self).next_free_ally_id == old(self).next_free_ally_id,
    {
        match self.paras.get(&id.0) {
            Some(info) => {
                let updated = ParaInfo { locked: true, ..*info };
                self.paras.insert(id.0, updated);
            },
            None => {},
        }
    }

    /// Lets the manager control `id` again, where it is recorded.
    pub fn remove_lock(&mut self, id: AllyId)
        ensures
            final(self).paras@ == with_lock(old(self).paras@, id, false),
            final(self).pending_swap@ == old(self).pending_swap@,
            final(self).next_free_ally_id == old(self).next_free_ally_id,
    {
        match self.paras.get(&id.0) {
            Some(info) => {
                let updated = ParaInfo { locked: false, ..*info };
                self.paras.insert(id.0, updated);
            },
            None => {},
        }
    }

    /// Checks that `origin` is governance, the ally `id` itself, or the manager of `id`
    /// while it is not locked.
    pub fn ensure_root_para_or_owner(&self, origin: Origin, id: AllyId) -> (r: Result<(), DispatchError>)
        ensures
            r == (if may_manage(self.paras@, origin, id) { Ok(()) } else { Err(DispatchError::BadOrigin) }),
    {
        match origin {
            Origin::Root => Ok(()),
            Origin::Allychain(caller) => if caller.0 == id.0 { Ok(()) } else { Err(DispatchError::BadOrigin) },
            Origin::Signed(who) => match self.paras.get(&id.0) {
                Some(info) => if !info.locked && info.manager == who { Ok(()) } else { Err(DispatchError::BadOrigin) },
                None => Err(DispatchError::BadOrigin),
            },
            Origin::Unsigned => Err(DispatchError::BadOrigin),
        }
    }

    /// The registrar's state as a mathematical value.
    pub open spec fn state(&self) -> RegistrarState {
        RegistrarState { paras: self.paras@, pending_swap: self.pending_swap@, next_free_ally_id: self.next_free_ally_id }
    }

    fn apply_one(&mut self, c: Change)
        ensures
            final(self).state() == apply_change(old(self).state(), c),
    {
        match c {
            Change::InsertPara(id, info) => {
                self.paras.insert(id.0, info);
            },
            Change::RemovePara(id) => {
                self.paras.remove(&id.0);
            },
            Change::SetLock(id, locked) => {
                if locked {
                    self.apply_lock(id);
                } else {
                    self.remove_lock(id);
                }
            },
            Change::InsertSwap(id, other) => {
                self.pending_swap.insert(id.0, other.0);
            },
            Change::RemoveSwap(id) => {
                self.pending_swap.remove(&id.0);
            },
            Change::SetNextFree(id) => {
                self.next_free_ally_id = id;
            },
        }
        proof {
            assert(self.state() =~= apply_change(old(self).state(), c));
        }
    }

    /// Carries out a prepared operation once the runtime has made its first call, whose
    /// result is `outcome`: where that call failed, the operation is refused with the call's
    /// error or the registrar error it stands for, and nothing is written; otherwise the
    /// changes are applied in order and the calls to make afterwards are returned.
    pub fn commit(&mut self, prepared: Prepared, outcome: Result<(), DispatchError>) -> (r: Result<Vec<OutsideCall>, DispatchError>)
        ensures
            (prepared.guard is Some && outcome is Err) ==> {
                &&& r == Err::<Vec<OutsideCall>, DispatchError>(match (prepared.guard->Some_0).on_failure {
                    OnFailure::Propagate => outcome->Err_0,
                    OnFailure::Fail(e) => DispatchError::Module(e),
                })
                &&& final(self).state() == old(self).state()
            },
            !(prepared.guard is Some && outcome is Err) ==> {
                &&& r is Ok
                &&& r->Ok_0@ == prepared.calls@
                &&& final(self).state() == apply_changes(old(self).state(), prepared.changes@)
            },
    {
        match (&prepared.guard, &outcome) {
            (Some(g), Err(e)) => {
                return match g.on_failure {
                    OnFailure::Propagate => Err(*e),
                    OnFailure::Fail(err) => Err(DispatchError::Module(err)),
                };
            },
            _ => {},
        }
        let ghost st0 = self.state();
        let mut i: usize = 0;
        proof {
            assert(prepared.changes@.take(0) =~= Seq::<Change>::empty());
        }
        while i < prepared.changes.len()
            invariant
                i <= prepared.changes@.len(),
                self.state() == apply_changes(st0, prepared.changes@.take(i as int)),
            decreases prepared.changes@.len() - i,
        {
            let c = prepared.changes[i];
            proof {
                assert(prepared.changes@.take(i + 1).drop_last() =~= prepared.changes@.take(i as int));
            }
            self.apply_one(c);
            i = i + 1;
        }
        proof {
            assert(prepared.changes@.take(i as int) =~= prepared.changes@);
        }
        Ok(prepared.calls)
    }

    /// Decides on reserving `id` for `who`, with the given deposit or else the configured
    /// one: refused with `AlreadyRegistered` where `id` is recorded or has a lifecycle;
    /// otherwise the deposit is reserved, which may refuse it, and `who` is recorded as the
    /// ally's unlocked manager.
    pub fn do_reserve(
        &self,
        who: AccountId,
        deposit_override: Option<Balance>,
        id: AllyId,
        lifecycle: Option<ParaLifecycle>,
        cfg: &Config,
    ) -> (r: Result<Prepared, DispatchError>)
        ensures
            ({
                let deposit = match deposit_override { Some(d) => d, None => cfg.para_deposit };
                if self.paras@.contains_key(id.0) || lifecycle is Some {
                    r == Err::<Prepared, DispatchError>(DispatchError::Module(Error::AlreadyRegistered))
                } else {
                    &&& r is Ok
                    &&& r->Ok_0.guard == Some(Effect { call: OutsideCall::Reserve(who, deposit), on_failure: OnFailure::Propagate })
                    &&& r->Ok_0.changes@ == seq![Change::InsertPara(id, ParaInfo { manager: who, deposit, locked: false })]
                    &&& r->Ok_0.calls@ == seq![OutsideCall::DepositEvent(Event::Reserved(id, who))]
                    &&& prepared_delta(r->Ok_0)
                        == deposit_of(apply_changes(self.state(), r->Ok_0.changes@).paras, id) - deposit_of(self.paras@, id)
                }
            }),
    {
        if self.paras.contains_key(&id.0) || lifecycle.is_some() {
            return Err(DispatchError::Module(Error::AlreadyRegistered));
        }
        let deposit = match deposit_override {
            Some(d) => d,
            None => cfg.para_deposit,
        };
        let mut changes: Vec<Change> = Vec::new();
        changes.push(Change::InsertPara(id, ParaInfo { manager: who, deposit, locked: false }));
        let mut calls: Vec<OutsideCall> = Vec::new();
        calls.push(OutsideCall::DepositEvent(Event::Reserved(id, who)));
        proof {
            lemma_apply_changes_one(self.state(), changes@[0]);
            assert(changes@ =~= seq![changes@[0]]);
            lemma_reserve_delta_push(Seq::empty(), calls@[0]);
            assert(calls@ =~= Seq::<OutsideCall>::empty().push(calls@[0]));
        }
        Ok(Prepared {
            guard: Some(Effect { call: OutsideCall::Reserve(who, deposit), on_failure: OnFailure::Propagate }),
            changes,
            calls,
        })
    }

    /// Decides on registering head data and validation code for `id` under `who`. Where `id`
    /// is recorded it must be managed by `who` and not locked; where it is not, it must not be
    /// required to be reserved. It must have no lifecycle yet, and the data must be
    /// acceptable. The deposit, the given one or else the one the data calls for, replaces
    /// what was held: any increase is reserved, which may refuse the registration, any
    /// decrease released; then the ally is scheduled to be onboarded.
    pub fn do_register(
        &self,
        who: AccountId,
        deposit_override: Option<Balance>,
        id: AllyId,
        genesis_head: HeadData,
        validation_code: ValidationCode,
        ensure_reserved: bool,
        lifecycle: Option<ParaLifecycle>,
        host: &HostConfiguration,
        cfg: &Config,
    ) -> (r: Result<Prepared, DispatchError>)
        ensures
            ({
                let head_len = genesis_head.0@.len() as int;
                let code_len = validation_code.0@.len() as int;
                let err = register_error(self.paras@, who, id, ensure_reserved, lifecycle, *host, head_len, code_len);
                let deposited = if self.paras@.contains_key(id.0) { self.paras@[id.0].deposit } else { 0 };
                let deposit = match deposit_override {
                    Some(d) => d,
                    None => onboarding_deposit(*cfg, head_len, code_len),
                };
                match r {
                    Err(e) => err is Some && e == DispatchError::Module(err->Some_0),
                    Ok(prepared) => {
                        &&& err is None
                        &&& prepared.guard == deposit_guard(who, deposited, deposit)
                        &&& prepared.changes@ == seq![Change::InsertPara(id, ParaInfo { manager: who, deposit, locked: false })]
                        &&& prepared.calls@ == deposit_release(who, deposited, deposit) + seq![
                            OutsideCall::ScheduleParaInitialize(
                                id,
                                ParaGenesisArgs { genesis_head, validation_code, allychain: false },
                            ),
                            OutsideCall::DepositEvent(Event::Registered(id, who)),
                        ]
                        &&& prepared_delta(prepared)
                            == deposit_of(apply_changes(self.state(), prepared.changes@).paras, id) - deposit_of(self.paras@, id)
                    },
                }
            }),
    {
        let deposited: Balance = match self.paras.get(&id.0) {
            Some(info) => {
                if info.manager != who {
                    return Err(DispatchError::Module(Error::NotOwner));
                }
                if info.locked {
                    return Err(DispatchError::Module(Error::ParaLocked));
                }
                info.deposit
            },
            None => {
                if ensure_reserved {
                    return Err(DispatchError::Module(Error::NotReserved));
                }
                0
            },
        };
        if lifecycle.is_some() {
            return Err(DispatchError::Module(Error::AlreadyRegistered));
        }
        let ghost head = genesis_head;
        let ghost code = validation_code;
        let (genesis, computed) = match validate_onboarding_data(genesis_head, validation_code, false, host, cfg) {
            Ok(v) => v,
            Err(e) => {
                return Err(DispatchError::Module(e));
            },
        };
        let deposit = match deposit_override {
            Some(d) => d,
            None => computed,
        };
        let mut calls: Vec<OutsideCall> = Vec::new();
        let guard = if deposit >= deposited {
            Some(Effect { call: OutsideCall::Reserve(who, deposit - deposited), on_failure: OnFailure::Propagate })
        } else {
            calls.push(OutsideCall::Unreserve(who, deposited - deposit));
            None
        };
        let ghost release = calls@;
        calls.push(OutsideCall::ScheduleParaInitialize(id, genesis));
        calls.push(OutsideCall::DepositEvent(Event::Registered(id, who)));
        let mut changes: Vec<Change> = Vec::new();
        changes.push(Change::InsertPara(id, ParaInfo { manager: who, deposit, locked: false }));
        proof {
            lemma_apply_changes_one(self.state(), changes@[0]);
            assert(changes@ =~= seq![changes@[0]]);
            assert(release =~= deposit_release(who, deposited, deposit));
            let n = release.len() as int;
            assert(calls@ =~= release.push(calls@[n]).push(calls@[n + 1]));
            lemma_reserve_delta_push(release, calls@[n]);
            lemma_reserve_delta_push(release.push(calls@[n]), calls@[n + 1]);
            if deposit < deposited {
                lemma_reserve_delta_push(Seq::empty(), release[0]);
                assert(release =~= Seq::<OutsideCall>::empty().push(release[0]));
            }
        }
        Ok(Prepared { guard, changes, calls })
    }

    /// Decides on deregistering `id`, which must be an allythread or have no lifecycle: it is
    /// scheduled to be offboarded (refused with `CannotDeregister` where that cannot be
    /// scheduled), its deposit goes back to its manager, and it and any swap it asked for are
    /// forgotten.
    pub fn do_deregister(&self, id: AllyId, lifecycle: Option<ParaLifecycle>) -> (r: Result<Prepared, DispatchError>)
        ensures
            if lifecycle is Some && lifecycle->Some_0 != ParaLifecycle::Allythread {
                r == Err::<Prepared, DispatchError>(DispatchError::Module(Error::NotAllythread))
            } else {
                &&& r is Ok
                &&& r->Ok_0.guard == Some(Effect {
                    call: OutsideCall::ScheduleParaCleanup(id),
                    on_failure: OnFailure::Fail(Error::CannotDeregister),
                })
                &&& r->Ok_0.changes@ == seq![Change::RemovePara(id), Change::RemoveSwap(id)]
                &&& r->Ok_0.calls@ == (if self.paras@.contains_key(id.0) {
                    seq![
                        OutsideCall::Unreserve(self.paras@[id.0].manager, self.paras@[id.0].deposit),
                        OutsideCall::DepositEvent(Event::Deregistered(id)),
                    ]
                } else {
                    seq![OutsideCall::DepositEvent(Event::Deregistered(id))]
                })
                &&& prepared_delta(r->Ok_0)
                    == deposit_of(apply_changes(self.state(), r->Ok_0.changes@).paras, id) - deposit_of(self.paras@, id)
            },
    {
        match lifecycle {
            Some(l) => {
                if l != ParaLifecycle::Allythread {
                    return Err(DispatchError::Module(Error::NotAllythread));
                }
            },
            None => {},
        }
        let mut calls: Vec<OutsideCall> = Vec::new();
        match self.paras.get(&id.0) {
            Some(info) => {
                calls.push(OutsideCall::Unreserve(info.manager, info.deposit));
            },
            None => {},
        }
        let ghost release = calls@;
        calls.push(OutsideCall::DepositEvent(Event::Deregistered(id)));
        let mut changes: Vec<Change> = Vec::new();
        changes.push(Change::RemovePara(id));
        changes.push(Change::RemoveSwap(id));
        proof {
            lemma_apply_changes_two(self.state(), changes@[0], changes@[1]);
            assert(changes@ =~= seq![changes@[0], changes@[1]]);
            let n = release.len() as int;
            assert(calls@ =~= release.push(calls@[n]));
            lemma_reserve_delta_push(release, calls@[n]);
            if self.paras@.contains_key(id.0) {
                lemma_reserve_delta_push(Seq::empty(), release[0]);
                assert(release =~= Seq::<OutsideCall>::empty().push(release[0]));
            } else {
                assert(release =~= Seq::<OutsideCall>::empty());
            }
        }
        Ok(Prepared {
            guard: Some(Effect { call: OutsideCall::ScheduleParaCleanup(id), on_failure: OnFailure::Fail(Error::CannotDeregister) }),
            changes,
            calls,
        })
    }

    /// Decides on registering head data and validation code for an id that the signed caller
    /// reserved; other origins are refused with `BadOrigin`.
    pub fn register(
        &self,
        origin: Origin,
        id: AllyId,
        genesis_head: HeadData,
        validation_code: ValidationCode,
        lifecycle: Option<ParaLifecycle>,
        host: &HostConfiguration,
        cfg: &Config,
    ) -> (r: Result<Prepared, DispatchError>)
        ensures
            match origin {
                Origin::Signed(who) => {
                    let head_len = genesis_head.0@.len() as int;
                    let code_len = validation_code.0@.len() as int;
                    let err = register_error(self.paras@, who, id, true, lifecycle, *host, head_len, code_len);
                    let deposited = if self.paras@.contains_key(id.0) { self.paras@[id.0].deposit } else { 0 };
                    let deposit = onboarding_deposit(*cfg, head_len, code_len);
                    match r {
                        Err(e) => err is Some && e == DispatchError::Module(err->Some_0),
                        Ok(prepared) => {
                            &&& err is None
                            &&& prepared.guard == deposit_guard(who, deposited, deposit)
                            &&& prepared.changes@ == seq![Change::InsertPara(id, ParaInfo { manager: who, deposit, locked: false })]
                            &&& prepared.calls@ == deposit_release(who, deposited, deposit) + seq![
                                OutsideCall::ScheduleParaInitialize(
                                    id,
                                    ParaGenesisArgs { genesis_head, validation_code, allychain: false },
                                ),
                                OutsideCall::DepositEvent(Event::Registered(id, who)),
                            ]
                            &&& prepared_delta(prepared)
                                == deposit_of(apply_changes(self.state(), prepared.changes@).paras, id) - deposit_of(self.paras@, id)
                        },
                    }
                },
                _ => r == Err::<Prepared, DispatchError>(DispatchError::BadOrigin),
            },
    {
        match origin {
            Origin::Signed(who) => self.do_register(who, None, id, genesis_head, validation_code, true, lifecycle, host, cfg),
            _ => Err(DispatchError::BadOrigin),
        }
    }

    /// Decides on registering `id` under `who` with the given deposit, on behalf of
    /// governance; any id may be registered this way, reserved or not.
    pub fn force_register(
        &self,
        origin: Origin,
        who: AccountId,
        deposit: Balance,
        id: AllyId,
        genesis_head: HeadData,
        validation_code: ValidationCode,
        lifecycle: Option<ParaLifecycle>,
        host: &HostConfiguration,
        cfg: &Config,
    ) -> (r: Result<Prepared, DispatchError>)
        ensures
            origin == Origin::Root ==> {
                let head_len = genesis_head.0@.len() as int;
                let code_len = validation_code.0@.len() as int;
                let err = register_error(self.paras@, who, id, false, lifecycle, *host, head_len, code_len);
                let deposited = if self.paras@.contains_key(id.0) { self.paras@[id.0].deposit } else { 0 };
                match r {
                    Err(e) => err is Some && e == DispatchError::Module(err->Some_0),
                    Ok(prepared) => {
                        &&& err is None
                        &&& prepared.guard == deposit_guard(who, deposited, deposit)
                        &&& prepared.changes@ == seq![Change::InsertPara(id, ParaInfo { manager: who, deposit, locked: false })]
                        &&& prepared.calls@ == deposit_release(who, deposited, deposit) + seq![
                            OutsideCall::ScheduleParaInitialize(
                                id,
                                ParaGenesisArgs { genesis_head, validation_code, allychain: false },
                            ),
                            OutsideCall::DepositEvent(Event::Registered(id, who)),
                        ]
                        &&& prepared_delta(prepared)
                            == deposit_of(apply_changes(self.state(), prepared.changes@).paras, id) - deposit_of(self.paras@, id)
                    },
                }
            },
            origin != Origin::Root ==> r == Err::<Prepared, DispatchError>(DispatchError::BadOrigin),
    {
        match origin {
            Origin::Root => self.do_register(who, Some(deposit), id, genesis_head, validation_code, false, lifecycle, host, cfg),
            _ => Err(DispatchError::BadOrigin),
        }
    }

    /// Decides on deregistering `id`, on behalf of governance, the ally itself, or its
    /// unlocked manager; it must be an allythread or have no lifecycle.
    pub fn deregister(&self, origin: Origin, id: AllyId, lifecycle: Option<ParaLifecycle>) -> (r: Result<Prepared, DispatchError>)
        ensures
            !may_manage(self.paras@, origin, id) ==> r == Err::<Prepared, DispatchError>(DispatchError::BadOrigin),
            may_manage(self.paras@, origin, id) && lifecycle is Some && lifecycle->Some_0 != ParaLifecycle::Allythread
                ==> r == Err::<Prepared, DispatchError>(DispatchError::Module(Error::NotAllythread)),
            may_manage(self.paras@, origin, id) && (lifecycle is None || lifecycle->Some_0 == ParaLifecycle::Allythread) ==> {
                &&& r is Ok
                &&& r->Ok_0.guard == Some(Effect {
                    call: OutsideCall::ScheduleParaCleanup(id),
                    on_failure: OnFailure::Fail(Error::CannotDeregister),
                })
                &&& r->Ok_0.changes@ == seq![Change::RemovePara(id), Change::RemoveSwap(id)]
                &&& r->Ok_0.calls@ == (if self.paras@.contains_key(id.0) {
                    seq![
                        OutsideCall::Unreserve(self.paras@[id.0].manager, self.paras@[id.0].deposit),
                        OutsideCall::DepositEvent(Event::Deregistered(id)),
                    ]
                } else {
                    seq![OutsideCall::DepositEvent(Event::Deregistered(id))]
                })
                &&& prepared_delta(r->Ok_0)
                    == deposit_of(apply_changes(self.state(), r->Ok_0.changes@).paras, id) - deposit_of(self.paras@, id)
            },
    {
        match self.ensure_root_para_or_owner(origin, id) {
            Ok(()) => {},
            Err(e) => {
                return Err(e);
            },
        }
        self.do_deregister(id, lifecycle)
    }

    /// Decides on `id` asking to swap with `other`, on behalf of governance, the ally `id`
    /// itself, or its unlocked manager. Where `other` already asked to swap with `id` and both
    /// have a lifecycle, the swap is carried out (an allychain and an allythread trade places)
    /// and the request is used up; otherwise `id`'s request is recorded.
    pub fn swap(
        &self,
        origin: Origin,
        id: AllyId,
        other: AllyId,
        id_lifecycle: Option<ParaLifecycle>,
        other_lifecycle: Option<ParaLifecycle>,
    ) -> (r: Result<Prepared, DispatchError>)
        ensures
            !may_manage(self.paras@, origin, id) ==> r == Err::<Prepared, DispatchError>(DispatchError::BadOrigin),
            may_manage(self.paras@, origin, id) ==> {
                &&& r is Ok
                &&& r->Ok_0.guard is None
                &&& r->Ok_0.changes@ == swap_changes(self.pending_swap@, id, other, id_lifecycle, other_lifecycle)
                &&& r->Ok_0.calls@ == swap_effects(self.pending_swap@, id, other, id_lifecycle, other_lifecycle)
                &&& apply_changes(self.state(), r->Ok_0.changes@).pending_swap
                    == swap_pending_spec(self.pending_swap@, id, other, id_lifecycle, other_lifecycle)
                &&& apply_changes(self.state(), r->Ok_0.changes@).paras == self.paras@
            },
    {
        match self.ensure_root_para_or_owner(origin, id) {
            Ok(()) => {},
            Err(e) => {
                return Err(e);
            },
        }
        let mut calls: Vec<OutsideCall> = Vec::new();
        let mut changes: Vec<Change> = Vec::new();
        let requested = match self.pending_swap.get(&other.0) {
            Some(x) => *x == id.0,
            None => false,
        };
        if requested {
            match (other_lifecycle, id_lifecycle) {
                (Some(ol), Some(il)) => {
                    if il.is_allychain() && ol.is_allythread() {
                        calls.push(OutsideCall::ScheduleAllychainDowngrade(id));
                        calls.push(OutsideCall::ScheduleAllythreadUpgrade(other));
                        calls.push(OutsideCall::OnSwap(id, other));
                    } else if il.is_allythread() && ol.is_allychain() {
                        calls.push(OutsideCall::ScheduleAllychainDowngrade(other));
                        calls.push(OutsideCall::ScheduleAllythreadUpgrade(id));
                        calls.push(OutsideCall::OnSwap(id, other));
                    }
                    changes.push(Change::RemoveSwap(other));
                },
                _ => {},
            }
        } else {
            changes.push(Change::InsertSwap(id, other));
        }
        proof {
            assert(calls@ =~= swap_effects(self.pending_swap@, id, other, id_lifecycle, other_lifecycle));
            assert(changes@ =~= swap_changes(self.pending_swap@, id, other, id_lifecycle, other_lifecycle));
            if changes@.len() == 1 {
                lemma_apply_changes_one(self.state(), changes@[0]);
                assert(changes@ =~= seq![changes@[0]]);
            } else {
                assert(changes@ =~= Seq::<Change>::empty());
            }
        }
        Ok(Prepared { guard: None, changes, calls })
    }

    /// Lets the manager control `para` again, on behalf of governance.
    pub fn force_remove_lock(&mut self, origin: Origin, para: AllyId) -> (r: Result<(), DispatchError>)
        ensures
            origin == Origin::Root ==> r is Ok && final(self).paras@ == with_lock(old(self).paras@, para, false),
            origin != Origin::Root ==> r == Err::<(), DispatchError>(DispatchError::BadOrigin) && final(self).paras@ == old(self).paras@,
            final(self).pending_swap@ == old(self).pending_swap@,
            final(self).next_free_ally_id == old(self).next_free_ally_id,
    {
        match origin {
            Origin::Root => {
                self.remove_lock(para);
                Ok(())
            },
            _ => Err(DispatchError::BadOrigin),
        }
    }

    /// Decides on reserving the next free id, but at least the lowest public id, for the
    /// signed caller, who becomes its manager; the following id becomes the next free one.
    /// `lifecycle` is the lifecycle of the id handed out (`next_reservable_id`).
    pub fn reserve(&self, origin: Origin, lifecycle: Option<ParaLifecycle>, cfg: &Config) -> (r: Result<Prepared, DispatchError>)
        requires
            ({
                let id = next_reservable_spec(self.next_free_ally_id);
                (origin is Signed && !self.paras@.contains_key(id.0) && lifecycle is None) ==> id.0 < u32::MAX
            }),
        ensures
            ({
                let id = next_reservable_spec(self.next_free_ally_id);
                match origin {
                    Origin::Signed(who) => if self.paras@.contains_key(id.0) || lifecycle is Some {
                        r == Err::<Prepared, DispatchError>(DispatchError::Module(Error::AlreadyRegistered))
                    } else {
                        &&& r is Ok
                        &&& r->Ok_0.guard == Some(Effect { call: OutsideCall::Reserve(who, cfg.para_deposit), on_failure: OnFailure::Propagate })
                        &&& r->Ok_0.changes@ == seq![
                            Change::InsertPara(id, ParaInfo { manager: who, deposit: cfg.para_deposit, locked: false }),
                            Change::SetNextFree(AllyId((id.0 + 1) as u32)),
                        ]
                        &&& r->Ok_0.calls@ == seq![OutsideCall::DepositEvent(Event::Reserved(id, who))]
                        &&& prepared_delta(r->Ok_0)
                            == deposit_of(apply_changes(self.state(), r->Ok_0.changes@).paras, id) - deposit_of(self.paras@, id)
                    },
                    _ => r == Err::<Prepared, DispatchError>(DispatchError::BadOrigin),
                }
            }),
    {
        let who = match origin {
            Origin::Signed(who) => who,
            _ => {
                return Err(DispatchError::BadOrigin);
            },
        };
        let id = self.next_reservable_id();
        let mut prepared = match self.do_reserve(who, None, id, lifecycle, cfg) {
            Ok(p) => p,
            Err(e) => {
                return Err(e);
            },
        };
        let ghost first = prepared.changes@[0];
        prepared.changes.push(Change::SetNextFree(AllyId(id.0 + 1)));
        proof {
            lemma_apply_changes_two(self.state(), first, prepared.changes@[1]);
            assert(prepared.changes@ =~= seq![first, prepared.changes@[1]]);
            lemma_apply_changes_one(self.state(), first);
        }
        Ok(prepared)
    }

    /// Decides on upgrading `id`, which must be an allythread, to an allychain (refused with
    /// `CannotUpgrade` where that cannot be scheduled); from then on its manager is locked out,
    /// even after a later downgrade.
    pub fn make_allychain(&self, id: AllyId, lifecycle: Option<ParaLifecycle>) -> (r: Result<Prepared, DispatchError>)
        ensures
            lifecycle != Some(ParaLifecycle::Allythread)
                ==> r == Err::<Prepared, DispatchError>(DispatchError::Module(Error::NotAllythread)),
            lifecycle == Some(ParaLifecycle::Allythread) ==> {
                &&& r is Ok
                &&& r->Ok_0.guard == Some(Effect {
                    call: OutsideCall::ScheduleAllythreadUpgrade(id),
                    on_failure: OnFailure::Fail(Error::CannotUpgrade),
                })
                &&& r->Ok_0.changes@ == seq![Change::SetLock(id, true)]
                &&& r->Ok_0.calls@ == Seq::<OutsideCall>::empty()
                &&& apply_changes(self.state(), r->Ok_0.changes@).paras == with_lock(self.paras@, id, true)
            },
    {
        match lifecycle {
            Some(ParaLifecycle::Allythread) => {},
            _ => {
                return Err(DispatchError::Module(Error::NotAllythread));
            },
        }
        let mut changes: Vec<Change> = Vec::new();
        changes.push(Change::SetLock(id, true));
        proof {
            lemma_apply_changes_one(self.state(), changes@[0]);
            assert(changes@ =~= seq![changes@[0]]);
        }
        Ok(Prepared {
            guard: Some(Effect { call: OutsideCall::ScheduleAllythreadUpgrade(id), on_failure: OnFailure::Fail(Error::CannotUpgrade) }),
            changes,
            calls: Vec::new(),
        })
    }

    /// Decides on downgrading `id`, which must be an allychain, to an allythread (refused with
    /// `CannotDowngrade` where that cannot be scheduled).
    pub fn make_allythread(&self, id: AllyId, lifecycle: Option<ParaLifecycle>) -> (r: Result<Prepared, DispatchError>)
        ensures
            lifecycle != Some(ParaLifecycle::Allychain)
                ==> r == Err::<Prepared, DispatchError>(DispatchError::Module(Error::NotAllychain)),
            lifecycle == Some(ParaLifecycle::Allychain) ==> {
                &&& r is Ok
                &&& r->Ok_0.guard == Some(Effect {
                    call: OutsideCall::ScheduleAllychainDowngrade(id),
                    on_failure: OnFailure::Fail(Error::CannotDowngrade),
                })
                &&& r->Ok_0.changes@ == Seq::<Change>::empty()
                &&& r->Ok_0.calls@ == Seq::<OutsideCall>::empty()
            },
    {
        match lifecycle {
            Some(ParaLifecycle::Allychain) => {},
            _ => {
                return Err(DispatchError::Module(Error::NotAllychain));
            },
        }
        Ok(Prepared {
            guard: Some(Effect {
                call: OutsideCall::ScheduleAllychainDowngrade(id),
                on_failure: OnFailure::Fail(Error::CannotDowngrade),
            }),
            changes: Vec::new(),
            calls: Vec::new(),
        })
    }

    /// The largest head data the configuration accepts: zeros up to the maximum size.
    pub fn worst_head_data(host: &HostConfiguration) -> (h: HeadData)
        requires
            host.max_head_data_size > 0,
        ensures
            h.0@.len() == host.max_head_data_size,
            forall|i: int| 0 <= i < h.0@.len() ==> h.0@[i] == 0,
    {
        HeadData(zero_bytes(host.max_head_data_size))
    }

    /// The largest validation code the configuration accepts: zeros up to the maximum size.
    pub fn worst_validation_code(host: &HostConfiguration) -> (c: ValidationCode)
        requires
            host.max_code_size > 0,
        ensures
            c.0@.len() == host.max_code_size,
            forall|i: int| 0 <= i < c.0@.len() ==> c.0@[i] == 0,
    {
        ValidationCode(zero_bytes(host.max_code_size))
    }

    /// The id that `reserve` hands out next.
    pub fn next_reservable_id(&self) -> (id: AllyId)
        ensures
            id == next_reservable_spec(self.next_free_ally_id),
    {
        if self.next_free_ally_id.0 >= LOWEST_PUBLIC_ID {
            self.next_free_ally_id
        } else {
            AllyId(LOWEST_PUBLIC_ID)
        }
    }
}

/// The weights of the registrar's calls.
pub trait WeightInfo {
    /// The weight of `reserve`.
    fn reserve() -> Weight;
    /// The weight of `register`.
    fn register() -> Weight;
    /// The weight of `force_register`.
    fn force_register() -> Weight;
    /// The weight of `deregister`.
    fn deregister() -> Weight;
    /// The weight of `swap`.
    fn swap() -> Weight;
}

/// Weights for tests: every call weighs nothing.
pub struct TestWeightInfo;

impl WeightInfo for TestWeightInfo {
    fn reserve() -> (w: Weight)
        ensures
            w == 0,
    {
        0
    }

    fn register() -> (w: Weight)
        ensures
            w == 0,
    {
        0
    }

    fn force_register() -> (w: Weight)
        ensures
            w == 0,
    {
        0
    }

    fn deregister() -> (w: Weight)
        ensures
            w == 0,
    {
        0
    }

    fn swap() -> (w: Weight)
        ensures
            w == 0,
    {
        0
    }
}

/// The registrar's state at genesis.
#[derive(Clone, Copy, Debug, PartialEq, Eq)]
pub struct GenesisConfig {
    /// The first id that `reserve` may hand out.
    pub next_free_ally_id: AllyId,
}

impl GenesisConfig {
    /// Genesis starts handing out ids at the lowest public id.
    pub fn default() -> (g: Self)
        ensures
            g.next_free_ally_id == AllyId(LOWEST_PUBLIC_ID),
    {
        GenesisConfig { next_free_ally_id: AllyId(LOWEST_PUBLIC_ID) }
    }

    /// Writes the genesis state into `pallet`.
    pub fn build(&self, pallet: &mut Pallet)
        ensures
            final(pallet).next_free_ally_id == self.next_free_ally_id,
            final(pallet).paras@ == old(pallet).paras@,
            final(pallet).pending_swap@ == old(pallet).pending_swap@,
    {
        pallet.next_free_ally_id = self.next_free_ally_id;
    }
}

/// What calls reserve adds up over consecutive lists of calls.
pub proof fn lemma_reserve_delta_concat(a: Seq<OutsideCall>, b: Seq<OutsideCall>)
    ensures
        reserve_delta(a + b) == reserve_delta(a) + reserve_delta(b),
    decreases b.len(),
{
    if b.len() == 0 {
        assert(a + b =~= a);
    } else {
        lemma_reserve_delta_concat(a, b.drop_last());
        assert((a + b).drop_last() =~= a + b.drop_last());
        assert((a + b).last() == b.last());
    }
}

/// Deposits are accounted for across operations: where each of two consecutive operations
/// reserved, net, what it added to the deposit held for `id`, the two together reserved
/// what they added over both.
pub proof fn lemma_deposit_accounting(
    d0: Map<u32, ParaInfo>,
    d1: Map<u32, ParaInfo>,
    d2: Map<u32, ParaInfo>,
    e1: Seq<OutsideCall>,
    e2: Seq<OutsideCall>,
    id: AllyId,
)
    requires
        reserve_delta(e1) == deposit_of(d1, id) - deposit_of(d0, id),
        reserve_delta(e2) == deposit_of(d2, id) - deposit_of(d1, id),
    ensures
        reserve_delta(e1 + e2) == deposit_of(d2, id) - deposit_of(d0, id),
{
    lemma_reserve_delta_concat(e1, e2);
}

/// A swap takes both sides: the first request only records itself and makes no calls; the
/// matching request from the other side carries the swap out and leaves no request between
/// the two pending.
pub proof fn lemma_swap_needs_both_sides(
    pending: Map<u32, u32>,
    a: AllyId,
    b: AllyId,
    la: ParaLifecycle,
    lb: ParaLifecycle,
)
    requires
        !swap_requested(pending, a, b),
    ensures
        swap_effects(pending, a, b, Some(la), Some(lb)) == Seq::<OutsideCall>::empty(),
        swap_requested(swap_pending_spec(pending, a, b, Some(la), Some(lb)), b, a),
        swap_pending_spec(swap_pending_spec(pending, a, b, Some(la), Some(lb)), b, a, Some(lb), Some(la))
            == pending.remove(a.0),
        is_allychain_spec(la) && is_allythread_spec(lb) ==>
            swap_effects(swap_pending_spec(pending, a, b, Some(la), Some(lb)), b, a, Some(lb), Some(la)) == seq![
                OutsideCall::ScheduleAllychainDowngrade(a),
                OutsideCall::ScheduleAllythreadUpgrade(b),
                OutsideCall::OnSwap(b, a),
            ],
{
    let p1 = pending.insert(a.0, b.0);
    assert(p1.remove(a.0) =~= pending.remove(a.0));
}

/// A swap is carried out exactly when the other side asked first, both have a lifecycle, and
/// one is an allychain while the other is an allythread, whichever of the two confirms; then
/// the one that is an allychain is downgraded, the one that is an allythread is upgraded, and
/// the runtime is told of the swap between them.
pub proof fn lemma_swap_trades_places(
    pending: Map<u32, u32>,
    id: AllyId,
    other: AllyId,
    id_lifecycle: Option<ParaLifecycle>,
    other_lifecycle: Option<ParaLifecycle>,
)
    ensures
        ({
            let calls = swap_effects(pending, id, other, id_lifecycle, other_lifecycle);
            let carried_out = swap_requested(pending, id, other) && id_lifecycle is Some && other_lifecycle is Some && {
                let il = id_lifecycle->Some_0;
                let ol = other_lifecycle->Some_0;
                (is_allychain_spec(il) && is_allythread_spec(ol)) || (is_allythread_spec(il) && is_allychain_spec(ol))
            };
            &&& !carried_out ==> calls.len() == 0
            &&& carried_out ==> {
                let il = id_lifecycle->Some_0;
                let ol = other_lifecycle->Some_0;
                &&& calls.len() == 3
                &&& calls[2] == OutsideCall::OnSwap(id, other)
                &&& forall|d: AllyId| #[trigger] calls.contains(OutsideCall::ScheduleAllychainDowngrade(d))
                    ==> (d == id && is_allychain_spec(il)) || (d == other && is_allychain_spec(ol))
                &&& forall|u: AllyId| #[trigger] calls.contains(OutsideCall::ScheduleAllythreadUpgrade(u))
                    ==> (u == id && is_allythread_spec(il)) || (u == other && is_allythread_spec(ol))
                &&& is_allychain_spec(il) ==> calls[0] == OutsideCall::ScheduleAllychainDowngrade(id)
                    && calls[1] == OutsideCall::ScheduleAllythreadUpgrade(other)
                &&& is_allychain_spec(ol) ==> calls[0] == OutsideCall::ScheduleAllychainDowngrade(other)
                    && calls[1] == OutsideCall::ScheduleAllythreadUpgrade(id)
            }
        }),
{
    let calls = swap_effects(pending, id, other, id_lifecycle, other_lifecycle);
    if calls.len() > 0 {
        assert forall|d: AllyId| #[trigger] calls.contains(OutsideCall::ScheduleAllychainDowngrade(d)) implies
            (d == id && is_allychain_spec(id_lifecycle->Some_0)) || (d == other && is_allychain_spec(other_lifecycle->Some_0)) by {
            let k = choose|k: int| 0 <= k < calls.len() && calls[k] == OutsideCall::ScheduleAllychainDowngrade(d);
        }
        assert forall|u: AllyId| #[trigger] calls.contains(OutsideCall::ScheduleAllythreadUpgrade(u)) implies
            (u == id && is_allythread_spec(id_lifecycle->Some_0)) || (u == other && is_allythread_spec(other_lifecycle->Some_0)) by {
            let k = choose|k: int| 0 <= k < calls.len() && calls[k] == OutsideCall::ScheduleAllythreadUpgrade(u);
        }
    }
}

/// Once an ally is locked (as upgrading it to an allychain does), its manager can no longer
/// manage it; governance and the ally itself still can.
pub proof fn lemma_lock_excludes_manager(paras: Map<u32, ParaInfo>, id: AllyId, who: AccountId)
    ensures
        !may_manage(with_lock(paras, id, true), Origin::Signed(who), id),
        may_manage(with_lock(paras, id, true), Origin::Root, id),
        may_manage(with_lock(paras, id, true), Origin::Allychain(id), id),
{
}

/// Removing the lock gives the manager of a recorded ally control again.
pub proof fn lemma_unlock_restores_manager(paras: Map<u32, ParaInfo>, id: AllyId)
    requires
        paras.contains_key(id.0),
    ensures
        may_manage(with_lock(paras, id, false), Origin::Signed(paras[id.0].manager), id),
{
}

/// Reserved ids are handed out consecutively: once one is handed out, the next reserve
/// hands out the following id.
pub proof fn lemma_reserve_ids_consecutive(next_free: AllyId)
    requires
        next_reservable_spec(next_free).0 < u32::MAX,
    ensures
        next_reservable_spec(AllyId((next_reservable_spec(next_free).0 + 1) as u32))
            == AllyId((next_reservable_spec(next_free).0 + 1) as u32),
{
}

} // verus!
