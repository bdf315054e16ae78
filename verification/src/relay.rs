//! The decisions of the header relays: which chains a bridge relays between, and what the
//! relayed chains are configured with.
use vstd::prelude::*;
use crate::primitives::Weight;

verus! {

/// Interval at which new Ethereum blocks are checked, in seconds.
pub const ETHEREUM_TICK_INTERVAL_SECS: u64 = 5;
/// Max Ethereum headers wanted in all 'before-submitted' states.
pub const MAX_FUTURE_HEADERS_TO_DOWNLOAD: usize = 8;
/// Max Ethereum headers wanted in the 'submitted' state.
pub const MAX_SUBMITTED_HEADERS: usize = 4;
/// Max depth of in-memory headers in all states; past it they are pruned.
pub const PRUNE_DEPTH: u32 = 256;

/// Name of the `AlphaNetFinalityApi::best_finalized` runtime method.
pub const BEST_FINALIZED_ALPHANET_HEADER_METHOD: &'static str = "AlphaNetFinalityApi_best_finalized";
/// Name of the `AlphaNetFinalityApi::is_known_header` runtime method.
pub const IS_KNOWN_ALPHANET_HEADER_METHOD: &'static str = "AlphaNetFinalityApi_is_known_header";

/// The chains that header relays connect.
#[derive(Clone, Copy, Debug, PartialEq, Eq, Structural)]
pub enum Chain {
    Millau,
    Rialto,
    AlphaNet,
    BetaNet,
    Wococo,
}

/// A bridge instance to relay headers for.
#[derive(Clone, Copy, Debug, PartialEq, Eq, Structural)]
pub enum RelayHeadersBridge {
    MillauToRialto,
    RialtoToMillau,
    AlphaNetToMillau,
    BetaNetToWococo,
    WococoToBetaNet,
}

/// The chain a bridge reads headers from.
pub open spec fn source_spec(b: RelayHeadersBridge) -> Chain {
    match b {
        RelayHeadersBridge::MillauToRialto => Chain::Millau,
        RelayHeadersBridge::RialtoToMillau => Chain::Rialto,
        RelayHeadersBridge::AlphaNetToMillau => Chain::AlphaNet,
        RelayHeadersBridge::BetaNetToWococo => Chain::BetaNet,
        RelayHeadersBridge::WococoToBetaNet => Chain::Wococo,
    }
}

/// The chain a bridge submits headers to.
pub open spec fn target_spec(b: RelayHeadersBridge) -> Chain {
    match b {
        RelayHeadersBridge::MillauToRialto => Chain::Rialto,
        RelayHeadersBridge::RialtoToMillau => Chain::Millau,
        RelayHeadersBridge::AlphaNetToMillau => Chain::Millau,
        RelayHeadersBridge::BetaNetToWococo => Chain::Wococo,
        RelayHeadersBridge::WococoToBetaNet => Chain::BetaNet,
    }
}

impl RelayHeadersBridge {
    /// The chain this bridge reads headers from.
    pub fn source(&self) -> (c: Chain)
        ensures
            c == source_spec(*self),
    {
        match self {
            RelayHeadersBridge::MillauToRialto => Chain::Millau,
            RelayHeadersBridge::RialtoToMillau => Chain::Rialto,
            RelayHeadersBridge::AlphaNetToMillau => Chain::AlphaNet,
            RelayHeadersBridge::BetaNetToWococo => Chain::BetaNet,
            RelayHeadersBridge::WococoToBetaNet => Chain::Wococo,
        }
    }

    /// The chain this bridge submits headers to.
    pub fn target(&self) -> (c: Chain)
        ensures
            c == target_spec(*self),
    {
        match self {
            RelayHeadersBridge::MillauToRialto => Chain::Rialto,
            RelayHeadersBridge::RialtoToMillau => Chain::Millau,
            RelayHeadersBridge::AlphaNetToMillau => Chain::Millau,
            RelayHeadersBridge::BetaNetToWococo => Chain::Wococo,
            RelayHeadersBridge::WococoToBetaNet => Chain::BetaNet,
        }
    }
}

/// No bridge relays a chain's headers to itself.
pub proof fn lemma_bridge_chains_differ(b: RelayHeadersBridge)
    ensures
        source_spec(b) != target_spec(b),
{
}

/// The headers relay command: which bridge to relay, and whether only mandatory headers
/// (those that change the GRANDPA authority set) are relayed.
#[derive(Clone, Copy, Debug, PartialEq, Eq)]
pub struct RelayHeaders {
    /// The bridge instance to relay headers for.
    pub bridge: RelayHeadersBridge,
    /// Whether only mandatory headers are relayed.
    pub only_mandatory_headers: bool,
}

impl RelayHeaders {
    /// The chains the command relays between: from the source to the target.
    pub fn chains(&self) -> (c: (Chain, Chain))
        ensures
            c == (source_spec(self.bridge), target_spec(self.bridge)),
    {
        (self.bridge.source(), self.bridge.target())
    }
}

/// The Axlib-to-Ethereum headers synchronization pipeline.
#[derive(Clone, Copy, Debug, PartialEq, Eq)]
pub struct AxlibHeadersSyncPipeline;

impl AxlibHeadersSyncPipeline {
    /// The name of the chain headers come from.
    pub fn source_name() -> (n: &'static str)
        ensures
            n@ == "Axlib"@,
    {
        "Axlib"
    }

    /// The name of the chain headers go to.
    pub fn target_name() -> (n: &'static str)
        ensures
            n@ == "Ethereum"@,
    {
        "Ethereum"
    }

    /// The size of a queued header: the length of its encoding.
    pub fn estimate_size(encoded_header: &Vec<u8>) -> (size: usize)
        ensures
            size == encoded_header@.len(),
    {
        encoded_header.len()
    }
}

/// The BetaNet chain.
#[derive(Clone, Copy, Debug, PartialEq, Eq)]
pub struct BetaNet;

impl BetaNet {
    /// The chain's name.
    pub fn name() -> (n: &'static str)
        ensures
            n@ == "BetaNet"@,
    {
        "BetaNet"
    }

    /// The average time between blocks, in seconds.
    pub fn average_block_interval_secs() -> (s: u64)
        ensures
            s == 6,
    {
        6
    }
}

/// The AlphaNet chain, as the relay command line sees it.
#[derive(Clone, Copy, Debug, PartialEq, Eq)]
pub struct AlphaNet;

impl AlphaNet {
    /// The SS58 address format of the chain.
    pub fn ss58_format() -> (f: u16)
        ensures
            f == 42,
    {
        42
    }

    /// The largest weight of an extrinsic: none are sent.
    pub fn max_extrinsic_weight() -> (w: Weight)
        ensures
            w == 0,
    {
        0
    }

    /// Encodes a message to send from AlphaNet: sending messages is not supported, so this
    /// always fails.
    pub fn encode_message() -> (r: Result<(), String>)
        ensures
            r matches Err(e) && e@ == "Sending messages from AlphaNet is not yet supported."@,
    {
        Err("Sending messages from AlphaNet is not yet supported.".to_owned())
    }
}

} // verus!
