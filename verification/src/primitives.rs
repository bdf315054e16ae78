//! Plain value types shared by the scheduler and the registrar.
use vstd::prelude::*;

verus! {

/// Block numbers of the relay chain.
pub type BlockNumber = u32;

/// Balances held by accounts.
pub type Balance = u128;

/// Accounts of the relay chain.
pub type AccountId = u64;

/// Weights of extrinsics.
pub type Weight = u64;

/// The unique identifier of an ally (an allychain or an allythread).
#[derive(Clone, Copy, Debug, PartialEq, Eq, Structural)]
pub struct AllyId(pub u32);

/// The lowest (raw) identifier that `reserve` hands out.
pub const LOWEST_PUBLIC_ID: u32 = 2000;

/// The index of an availability core.
#[derive(Clone, Copy, Debug, PartialEq, Eq, Structural)]
pub struct CoreIndex(pub u32);

/// The index of a validator group.
#[derive(Clone, Copy, Debug, PartialEq, Eq, Structural)]
pub struct GroupIndex(pub u32);

/// The index of a validator within the active validator set.
#[derive(Clone, Copy, Debug, PartialEq, Eq, Structural)]
pub struct ValidatorIndex(pub u32);

/// The public key of a collator.
#[derive(Clone, Copy, Debug, PartialEq, Eq)]
pub struct CollatorId(pub [u8; 32]);

/// A claim that a collator makes on an allythread for one block.
#[derive(Clone, Copy, Debug, PartialEq, Eq)]
pub struct AllythreadClaim(pub AllyId, pub CollatorId);

/// An allythread claim together with the number of times it was retried.
#[derive(Clone, Copy, Debug, PartialEq, Eq)]
pub struct AllythreadEntry {
    /// The claim.
    pub claim: AllythreadClaim,
    /// How many times the claim has been retried.
    pub retries: u32,
}

/// What occupies an availability core.
#[derive(Clone, Copy, Debug, PartialEq, Eq)]
pub enum CoreOccupied {
    /// An allythread.
    Allythread(AllythreadEntry),
    /// An allychain.
    Allychain,
}

/// The ally that is up next on a core, with the collator it must come from, if any.
#[derive(Clone, Copy, Debug, PartialEq, Eq)]
pub struct ScheduledCore {
    /// The ally.
    pub ally_id: AllyId,
    /// The collator required to collate, if any.
    pub collator: Option<CollatorId>,
}

/// What is needed to work out the rotation of validator groups over cores.
#[derive(Clone, Copy, Debug, PartialEq, Eq)]
pub struct GroupRotationInfo {
    /// The block at which the session started.
    pub session_start_block: BlockNumber,
    /// How often groups rotate, in blocks.
    pub group_rotation_frequency: BlockNumber,
    /// The current block.
    pub now: BlockNumber,
}

/// The part of the host configuration that scheduling and registration read.
#[derive(Clone, Copy, Debug, PartialEq, Eq)]
pub struct HostConfiguration {
    /// The number of cores that are multiplexed between allythreads.
    pub allythread_cores: u32,
    /// How many times an allythread claim may be retried.
    pub allythread_retries: u32,
    /// How many blocks ahead allythread claims are queued.
    pub scheduling_lookahead: u32,
    /// At most this many validators per core, when set and nonzero.
    pub max_validators_per_core: Option<u32>,
    /// How often validator groups rotate over cores, in blocks.
    pub group_rotation_frequency: BlockNumber,
    /// How long an allychain candidate may stay pending availability.
    pub chain_availability_period: BlockNumber,
    /// How long an allythread candidate may stay pending availability.
    pub thread_availability_period: BlockNumber,
    /// The largest validation code accepted, in bytes.
    pub max_code_size: u32,
    /// The largest head data accepted, in bytes.
    pub max_head_data_size: u32,
}

} // verus!
