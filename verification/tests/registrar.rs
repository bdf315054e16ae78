use axia_runtime::paras_registrar::{
    Change, DispatchError, Effect, Error, Event, GenesisConfig, HeadData, OnFailure, Origin, OutsideCall, Pallet,
    ParaGenesisArgs, ParaInfo, ParaLifecycle, Prepared, Config, TestWeightInfo, ValidationCode, WeightInfo,
    validate_onboarding_data,
};
use axia_runtime::primitives::{AllyId, HostConfiguration, LOWEST_PUBLIC_ID};

fn host() -> HostConfiguration {
    HostConfiguration {
        allythread_cores: 0,
        allythread_retries: 0,
        scheduling_lookahead: 0,
        max_validators_per_core: None,
        group_rotation_frequency: 1,
        chain_availability_period: 0,
        thread_availability_period: 0,
        max_code_size: 2 * 1024 * 1024,
        max_head_data_size: 1024 * 1024,
    }
}

fn cfg() -> Config {
    Config { para_deposit: 10, data_deposit_per_byte: 1 }
}

fn test_genesis_head(size: usize) -> HeadData {
    HeadData(vec![0u8; size])
}

fn test_validation_code(size: usize) -> ValidationCode {
    ValidationCode(vec![0u8; size])
}

fn max_code_size() -> u32 {
    host().max_code_size
}

fn max_head_size() -> u32 {
    host().max_head_data_size
}

fn new_registrar() -> Pallet {
    let mut p = Pallet::new();
    GenesisConfig::default().build(&mut p);
    p
}

/// The error code with which the balances module refuses a reservation it cannot cover.
const INSUFFICIENT_BALANCE: u32 = 2;

/// Carries out a decided operation whose first call succeeds; gives back every call made,
/// the first call included.
fn run(p: &mut Pallet, decided: Result<Prepared, DispatchError>) -> Result<Vec<OutsideCall>, DispatchError> {
    let prepared = decided?;
    let mut all: Vec<OutsideCall> = Vec::new();
    if let Some(g) = &prepared.guard {
        all.push(g.call.clone());
    }
    all.extend(p.commit(prepared, Ok(()))?);
    Ok(all)
}

fn reserved_by(calls: &[OutsideCall], who: u64) -> i128 {
    let mut total: i128 = 0;
    for c in calls {
        match *c {
            OutsideCall::Reserve(w, a) if w == who => total += a as i128,
            OutsideCall::Unreserve(w, a) if w == who => total -= a as i128,
            _ => {},
        }
    }
    total
}

#[test]
fn basic_setup_works() {
    let p = new_registrar();
    assert_eq!(p.pending_swap.get(&0u32), None);
    assert_eq!(p.paras.get(&0u32), None);
}

#[test]
fn end_to_end_scenario_works() {
    let mut p = new_registrar();
    let ally_id = AllyId(LOWEST_PUBLIC_ID);
    assert_eq!(p.next_reservable_id(), ally_id);
    // We register the Ally ID
    let r = p.reserve(Origin::Signed(1), None, &cfg());
    assert!(run(&mut p, r).is_ok());
    let r = p.register(Origin::Signed(1), ally_id, test_genesis_head(32), test_validation_code(32), None, &host(), &cfg());
    let e = run(&mut p, r).unwrap();
    assert_eq!(
        e[1],
        OutsideCall::ScheduleParaInitialize(
            ally_id,
            ParaGenesisArgs {
                genesis_head: test_genesis_head(32),
                validation_code: test_validation_code(32),
                allychain: false,
            }
        )
    );
    // Onboarded: it is now an allythread; some other process elevates it to an allychain.
    let prepared = p.make_allychain(ally_id, Some(ParaLifecycle::Allythread)).unwrap();
    assert_eq!(
        prepared.guard,
        Some(Effect { call: OutsideCall::ScheduleAllythreadUpgrade(ally_id), on_failure: OnFailure::Fail(Error::CannotUpgrade) })
    );
    assert_eq!(p.commit(prepared, Ok(())), Ok(vec![]));
    assert!(p.paras.get(&ally_id.0).unwrap().locked);
    // It is now an allychain; turn it back into an allythread.
    let prepared = p.make_allythread(ally_id, Some(ParaLifecycle::Allychain)).unwrap();
    assert_eq!(
        prepared.guard,
        Some(Effect { call: OutsideCall::ScheduleAllychainDowngrade(ally_id), on_failure: OnFailure::Fail(Error::CannotDowngrade) })
    );
    assert_eq!(p.commit(prepared, Ok(())), Ok(vec![]));
    // Deregister it
    let r = p.deregister(Origin::Root, ally_id, Some(ParaLifecycle::Allythread));
    let e = run(&mut p, r).unwrap();
    assert_eq!(e[0], OutsideCall::ScheduleParaCleanup(ally_id));
    assert_eq!(p.paras.get(&ally_id.0), None);
}

#[test]
fn register_works() {
    let mut p = new_registrar();
    let ally_id = AllyId(LOWEST_PUBLIC_ID);
    let r = p.reserve(Origin::Signed(1), None, &cfg());
    let e1 = run(&mut p, r).unwrap();
    assert_eq!(reserved_by(&e1, 1), 10);
    let r = p.register(Origin::Signed(1), ally_id, test_genesis_head(32), test_validation_code(32), None, &host(), &cfg());
    let e2 = run(&mut p, r).unwrap();
    assert_eq!(reserved_by(&e1, 1) + reserved_by(&e2, 1), 10 + 64 * 1);
    assert_eq!(p.paras.get(&ally_id.0).unwrap().deposit, 74);
    assert_eq!(e2[2], OutsideCall::DepositEvent(Event::Registered(ally_id, 1)));
}

#[test]
fn register_handles_basic_errors() {
    let mut p = new_registrar();
    let ally_id = AllyId(LOWEST_PUBLIC_ID);

    let r = p.register(
        Origin::Signed(1),
        ally_id,
        test_genesis_head(max_head_size() as usize),
        test_validation_code(max_code_size() as usize),
        None,
        &host(),
        &cfg(),
    );
    assert_eq!(run(&mut p, r), Err(DispatchError::Module(Error::NotReserved)));

    // Successfully register para
    let r = p.reserve(Origin::Signed(1), None, &cfg());
    assert!(run(&mut p, r).is_ok());

    let r = p.register(
        Origin::Signed(2),
        ally_id,
        test_genesis_head(max_head_size() as usize),
        test_validation_code(max_code_size() as usize),
        None,
        &host(),
        &cfg(),
    );
    assert_eq!(run(&mut p, r), Err(DispatchError::Module(Error::NotOwner)));

    let r = p.register(
        Origin::Signed(1),
        ally_id,
        test_genesis_head(max_head_size() as usize),
        test_validation_code(max_code_size() as usize),
        None,
        &host(),
        &cfg(),
    );
    assert!(run(&mut p, r).is_ok());

    let r = p.deregister(Origin::Root, ally_id, Some(ParaLifecycle::Allythread));
    assert!(run(&mut p, r).is_ok());

    // Can't do it again
    let r = p.register(
        Origin::Signed(1),
        ally_id,
        test_genesis_head(max_head_size() as usize),
        test_validation_code(max_code_size() as usize),
        None,
        &host(),
        &cfg(),
    );
    assert_eq!(run(&mut p, r), Err(DispatchError::Module(Error::NotReserved)));

    // Head Size Check
    let r = p.reserve(Origin::Signed(2), None, &cfg());
    assert!(run(&mut p, r).is_ok());
    let r = p.register(
        Origin::Signed(2),
        AllyId(ally_id.0 + 1),
        test_genesis_head((max_head_size() + 1) as usize),
        test_validation_code(max_code_size() as usize),
        None,
        &host(),
        &cfg(),
    );
    assert_eq!(run(&mut p, r), Err(DispatchError::Module(Error::HeadDataTooLarge)));

    // Code Size Check
    let r = p.register(
        Origin::Signed(2),
        AllyId(ally_id.0 + 1),
        test_genesis_head(max_head_size() as usize),
        test_validation_code((max_code_size() + 1) as usize),
        None,
        &host(),
        &cfg(),
    );
    assert_eq!(run(&mut p, r), Err(DispatchError::Module(Error::CodeTooLarge)));

    // Needs enough funds for deposit: the balances module refuses the reservation, which
    // refuses the whole call and leaves the registrar as it was.
    let before_next = p.next_free_ally_id;
    let prepared = p.reserve(Origin::Signed(1337), None, &cfg()).unwrap();
    assert_eq!(prepared.guard, Some(Effect { call: OutsideCall::Reserve(1337, 10), on_failure: OnFailure::Propagate }));
    assert_eq!(
        p.commit(prepared, Err(DispatchError::Other(INSUFFICIENT_BALANCE))),
        Err(DispatchError::Other(INSUFFICIENT_BALANCE))
    );
    assert_eq!(p.next_free_ally_id, before_next);
    assert_eq!(p.paras.get(&before_next.0), None);

    // Empty code
    let r = p.register(
        Origin::Signed(2),
        AllyId(ally_id.0 + 1),
        test_genesis_head(1),
        test_validation_code(0),
        None,
        &host(),
        &cfg(),
    );
    assert_eq!(run(&mut p, r), Err(DispatchError::Module(Error::EmptyCode)));
}

#[test]
fn deregister_works() {
    let mut p = new_registrar();
    let ally_id = AllyId(LOWEST_PUBLIC_ID);
    let r = p.reserve(Origin::Signed(1), None, &cfg());
    let e1 = run(&mut p, r).unwrap();
    let r = p.register(Origin::Signed(1), ally_id, test_genesis_head(32), test_validation_code(32), None, &host(), &cfg());
    let e2 = run(&mut p, r).unwrap();
    let r = p.deregister(Origin::Root, ally_id, Some(ParaLifecycle::Allythread));
    let e3 = run(&mut p, r).unwrap();
    assert_eq!(p.paras.get(&ally_id.0), None);
    assert_eq!(reserved_by(&e1, 1) + reserved_by(&e2, 1) + reserved_by(&e3, 1), 0);
    assert_eq!(e3[2], OutsideCall::DepositEvent(Event::Deregistered(ally_id)));
}

#[test]
fn deregister_handles_basic_errors() {
    let mut p = new_registrar();
    let ally_id = AllyId(LOWEST_PUBLIC_ID);
    let r = p.reserve(Origin::Signed(1), None, &cfg());
    assert!(run(&mut p, r).is_ok());
    let r = p.register(Origin::Signed(1), ally_id, test_genesis_head(32), test_validation_code(32), None, &host(), &cfg());
    assert!(run(&mut p, r).is_ok());
    // Owner check
    let r = p.deregister(Origin::Signed(2), ally_id, Some(ParaLifecycle::Allythread));
    assert_eq!(run(&mut p, r), Err(DispatchError::BadOrigin));
    let r = p.make_allychain(ally_id, Some(ParaLifecycle::Allythread));
    assert!(run(&mut p, r).is_ok());
    // Cant directly deregister allychain
    let r = p.deregister(Origin::Root, ally_id, Some(ParaLifecycle::Allychain));
    assert_eq!(run(&mut p, r), Err(DispatchError::Module(Error::NotAllythread)));
}

#[test]
fn swap_works() {
    let mut p = new_registrar();
    let para_1 = AllyId(LOWEST_PUBLIC_ID);
    let para_2 = AllyId(LOWEST_PUBLIC_ID + 1);
    let r = p.reserve(Origin::Signed(1), None, &cfg());
    assert!(run(&mut p, r).is_ok());
    let r = p.register(
        Origin::Signed(1),
        para_1,
        test_genesis_head(max_head_size() as usize),
        test_validation_code(max_code_size() as usize),
        None,
        &host(),
        &cfg(),
    );
    assert!(run(&mut p, r).is_ok());
    let r = p.reserve(Origin::Signed(2), None, &cfg());
    assert!(run(&mut p, r).is_ok());
    let r = p.register(
        Origin::Signed(2),
        para_2,
        test_genesis_head(max_head_size() as usize),
        test_validation_code(max_code_size() as usize),
        None,
        &host(),
        &cfg(),
    );
    assert!(run(&mut p, r).is_ok());

    // Upgrade para_1 into an allychain
    let r = p.make_allychain(para_1, Some(ParaLifecycle::Allythread));
    assert!(run(&mut p, r).is_ok());

    // Both paras initiate a swap
    let r = p.swap(Origin::Allychain(para_1), para_1, para_2, Some(ParaLifecycle::Allychain), Some(ParaLifecycle::Allythread));
    let e = run(&mut p, r).unwrap();
    assert!(e.is_empty());
    assert_eq!(p.pending_swap.get(&para_1.0), Some(&para_2.0));
    let r = p.swap(Origin::Allychain(para_2), para_2, para_1, Some(ParaLifecycle::Allythread), Some(ParaLifecycle::Allychain));
    let e = run(&mut p, r).unwrap();
    assert_eq!(
        e,
        vec![
            OutsideCall::ScheduleAllychainDowngrade(para_1),
            OutsideCall::ScheduleAllythreadUpgrade(para_2),
            OutsideCall::OnSwap(para_2, para_1),
        ]
    );
    assert_eq!(p.pending_swap.get(&para_1.0), None);

    // Deregister an allythread that started out as an allychain
    let r = p.deregister(Origin::Allychain(para_1), para_1, Some(ParaLifecycle::Allythread));
    assert!(run(&mut p, r).is_ok());
}

#[test]
fn para_lock_works() {
    let mut p = new_registrar();
    let r = p.reserve(Origin::Signed(1), None, &cfg());
    assert!(run(&mut p, r).is_ok());
    let ally_id = AllyId(LOWEST_PUBLIC_ID);
    let r = p.register(Origin::Signed(1), ally_id, HeadData(vec![1; 3]), ValidationCode(vec![1, 2, 3]), None, &host(), &cfg());
    assert!(run(&mut p, r).is_ok());

    // Owner can call swap
    let r = p.swap(Origin::Signed(1), ally_id, AllyId(ally_id.0 + 1), None, None);
    assert!(run(&mut p, r).is_ok());

    // Once they begin onboarding, we lock them in.
    let r = p.make_allychain(ally_id, Some(ParaLifecycle::Allythread));
    assert!(run(&mut p, r).is_ok());

    // Owner cannot call swap anymore
    let r = p.swap(Origin::Signed(1), ally_id, AllyId(ally_id.0 + 2), None, None);
    assert_eq!(run(&mut p, r), Err(DispatchError::BadOrigin));

    // Governance can remove the lock, and the owner may swap again
    assert!(p.force_remove_lock(Origin::Root, ally_id).is_ok());
    let r = p.swap(Origin::Signed(1), ally_id, AllyId(ally_id.0 + 2), None, None);
    assert!(run(&mut p, r).is_ok());
}

#[test]
fn reserve_hands_out_consecutive_ids() {
    let mut p = Pallet::new();
    assert_eq!(p.next_reservable_id(), AllyId(LOWEST_PUBLIC_ID));
    let r = p.reserve(Origin::Signed(7), None, &cfg());
    let e = run(&mut p, r).unwrap();
    assert_eq!(e[1], OutsideCall::DepositEvent(Event::Reserved(AllyId(LOWEST_PUBLIC_ID), 7)));
    assert_eq!(p.next_free_ally_id, AllyId(LOWEST_PUBLIC_ID + 1));
    let r = p.reserve(Origin::Signed(8), None, &cfg());
    let e = run(&mut p, r).unwrap();
    assert_eq!(e[1], OutsideCall::DepositEvent(Event::Reserved(AllyId(LOWEST_PUBLIC_ID + 1), 8)));
    assert_eq!(p.reserve(Origin::Root, None, &cfg()), Err(DispatchError::BadOrigin));
    assert_eq!(
        p.reserve(Origin::Signed(9), Some(ParaLifecycle::Onboarding), &cfg()),
        Err(DispatchError::Module(Error::AlreadyRegistered))
    );
    assert_eq!(p.next_free_ally_id, AllyId(LOWEST_PUBLIC_ID + 2));
}

#[test]
fn force_register_takes_given_deposit_and_rebates() {
    let mut p = new_registrar();
    let id = AllyId(69);
    assert_eq!(
        p.force_register(Origin::Signed(1), 1, 0, id, test_genesis_head(1), test_validation_code(1), None, &host(), &cfg()),
        Err(DispatchError::BadOrigin)
    );
    let r = p.force_register(Origin::Root, 5, 100, id, test_genesis_head(1), test_validation_code(1), None, &host(), &cfg());
    let e = run(&mut p, r).unwrap();
    assert_eq!(e[0], OutsideCall::Reserve(5, 100));
    assert_eq!(p.manager_of(id), Some(5));
    // A second registration by the manager with a smaller deposit gives the difference back.
    let prepared = p
        .force_register(Origin::Root, 5, 40, id, test_genesis_head(1), test_validation_code(1), None, &host(), &cfg())
        .unwrap();
    assert_eq!(prepared.guard, None);
    assert_eq!(prepared.changes[0], Change::InsertPara(id, ParaInfo { manager: 5, deposit: 40, locked: false }));
    let e = p.commit(prepared, Ok(())).unwrap();
    assert_eq!(e[0], OutsideCall::Unreserve(5, 60));
    assert_eq!(p.paras.get(&id.0).unwrap().deposit, 40);
    // Already has a lifecycle
    assert_eq!(
        p.force_register(
            Origin::Root,
            5,
            40,
            id,
            test_genesis_head(1),
            test_validation_code(1),
            Some(ParaLifecycle::Onboarding),
            &host(),
            &cfg()
        ),
        Err(DispatchError::Module(Error::AlreadyRegistered))
    );
}

#[test]
fn locked_para_refuses_registration() {
    let mut p = new_registrar();
    let id = AllyId(LOWEST_PUBLIC_ID);
    let r = p.reserve(Origin::Signed(1), None, &cfg());
    assert!(run(&mut p, r).is_ok());
    p.apply_lock(id);
    assert_eq!(
        p.register(Origin::Signed(1), id, test_genesis_head(1), test_validation_code(1), None, &host(), &cfg()),
        Err(DispatchError::Module(Error::ParaLocked))
    );
    p.remove_lock(id);
    let r = p.register(Origin::Signed(1), id, test_genesis_head(1), test_validation_code(1), None, &host(), &cfg());
    assert!(run(&mut p, r).is_ok());
}

#[test]
fn refused_first_call_writes_nothing() {
    let mut p = new_registrar();
    let id = AllyId(LOWEST_PUBLIC_ID);
    let r = p.reserve(Origin::Signed(1), None, &cfg());
    assert!(run(&mut p, r).is_ok());
    let r = p.register(Origin::Signed(1), id, test_genesis_head(32), test_validation_code(32), None, &host(), &cfg());
    assert!(run(&mut p, r).is_ok());
    // The allychains module refuses to schedule the cleanup: the ally stays registered.
    let prepared = p.deregister(Origin::Root, id, Some(ParaLifecycle::Allythread)).unwrap();
    assert_eq!(p.commit(prepared, Err(DispatchError::Other(7))), Err(DispatchError::Module(Error::CannotDeregister)));
    assert_eq!(p.paras.get(&id.0).unwrap().deposit, 74);
    // The upgrade cannot be scheduled: the manager is not locked out.
    let prepared = p.make_allychain(id, Some(ParaLifecycle::Allythread)).unwrap();
    assert_eq!(p.commit(prepared, Err(DispatchError::Other(7))), Err(DispatchError::Module(Error::CannotUpgrade)));
    assert!(!p.paras.get(&id.0).unwrap().locked);
    // A registration whose larger deposit cannot be reserved keeps the old deposit.
    let prepared = p
        .force_register(Origin::Root, 1, 500, id, test_genesis_head(1), test_validation_code(1), None, &host(), &cfg())
        .unwrap();
    assert_eq!(prepared.guard, Some(Effect { call: OutsideCall::Reserve(1, 426), on_failure: OnFailure::Propagate }));
    assert_eq!(
        p.commit(prepared, Err(DispatchError::Other(INSUFFICIENT_BALANCE))),
        Err(DispatchError::Other(INSUFFICIENT_BALANCE))
    );
    assert_eq!(p.paras.get(&id.0).unwrap().deposit, 74);
}

#[test]
fn onboarding_deposit_saturates() {
    let big = Config { para_deposit: u128::MAX - 5, data_deposit_per_byte: 1 };
    let (args, deposit) = validate_onboarding_data(test_genesis_head(3), test_validation_code(4), true, &host(), &big).unwrap();
    assert_eq!(deposit, u128::MAX);
    assert!(args.allychain);
    let (_, deposit) = validate_onboarding_data(test_genesis_head(3), test_validation_code(4), false, &host(), &cfg()).unwrap();
    assert_eq!(deposit, 17);
}

#[test]
fn make_allythread_requires_allychain() {
    let p = new_registrar();
    assert_eq!(
        p.make_allythread(AllyId(5), Some(ParaLifecycle::Allythread)),
        Err(DispatchError::Module(Error::NotAllychain))
    );
    assert_eq!(p.make_allychain(AllyId(5), None), Err(DispatchError::Module(Error::NotAllythread)));
}

#[test]
fn lifecycle_classification() {
    assert!(ParaLifecycle::DowngradingAllychain.is_allychain());
    assert!(ParaLifecycle::OffboardingAllychain.is_allychain());
    assert!(!ParaLifecycle::Onboarding.is_allychain());
    assert!(ParaLifecycle::UpgradingAllythread.is_allythread());
    assert!(!ParaLifecycle::Allychain.is_allythread());
}

#[test]
fn worst_data_fills_the_limits() {
    let h = HostConfiguration { max_code_size: 7, max_head_data_size: 3, ..host() };
    assert_eq!(Pallet::worst_head_data(&h), HeadData(vec![0u8; 3]));
    assert_eq!(Pallet::worst_validation_code(&h), ValidationCode(vec![0u8; 7]));
    assert_eq!(<TestWeightInfo as WeightInfo>::swap(), 0);
    assert_eq!(<TestWeightInfo as WeightInfo>::register(), 0);
}
