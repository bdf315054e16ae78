use axia_runtime::consensus::{Error, FindLogError};
use axia_runtime::relay::{AlphaNet, AxlibHeadersSyncPipeline, BetaNet, Chain, RelayHeaders, RelayHeadersBridge};
use axia_runtime::weights::{RuntimeDbWeight, WeightInfo};

fn weights() -> WeightInfo {
    WeightInfo { db_weight: RuntimeDbWeight { read: 25_000_000, write: 100_000_000 } }
}

#[test]
fn paras_inherent_weights() {
    let w = weights();
    assert_eq!(w.enter_bitfields(), 446_635_000 + 23 * 25_000_000 + 15 * 100_000_000);
    assert_eq!(w.enter_variable_disputes(10), 404_051_000 + 10 * 309_000 + 23 * 25_000_000 + 14 * 100_000_000);
    assert_eq!(
        w.enter_backed_candidates_variable(2),
        1_103_699_000 + 2 * 49_128_000 + 25 * 25_000_000 + 14 * 100_000_000
    );
    assert_eq!(w.enter_backed_candidate_code_upgrade(), 42_700_804_000 + 27 * 25_000_000 + 14 * 100_000_000);
    let huge = WeightInfo { db_weight: RuntimeDbWeight { read: u64::MAX, write: 1 } };
    assert_eq!(huge.enter_bitfields(), u64::MAX);
    assert_eq!(w.db_weight.reads(2), 50_000_000);
    assert_eq!(w.db_weight.writes(3), 300_000_000);
}

#[test]
fn log_errors_map_to_rejections() {
    assert_eq!(Error::from(FindLogError::NotFound), Error::NoRuntimeLog);
    assert_eq!(Error::from(FindLogError::MultipleLogs), Error::MultipleRuntimeLogs);
    assert_eq!(Error::MultipleRuntimeLogs.message(), "Multiple runtime Ethereum blocks, rejecting!");
    assert_eq!(Error::NoRuntimeLog.message(), "Runtime Ethereum block not found, rejecting!");
    assert_eq!(Error::RuntimeApiCallFailed.message(), "Cannot access the runtime at genesis, rejecting!");
}

#[test]
fn bridges_relay_between_their_chains() {
    let r = RelayHeaders { bridge: RelayHeadersBridge::AlphaNetToMillau, only_mandatory_headers: true };
    assert_eq!(r.chains(), (Chain::AlphaNet, Chain::Millau));
    assert_eq!(RelayHeadersBridge::WococoToBetaNet.source(), Chain::Wococo);
    assert_eq!(RelayHeadersBridge::WococoToBetaNet.target(), Chain::BetaNet);
    assert_eq!(RelayHeadersBridge::MillauToRialto.target(), Chain::Rialto);
    assert_eq!(RelayHeadersBridge::RialtoToMillau.source(), Chain::Rialto);
    assert_eq!(RelayHeadersBridge::BetaNetToWococo.target(), Chain::Wococo);
}

#[test]
fn chain_settings() {
    assert_eq!(AlphaNet::ss58_format(), 42);
    assert_eq!(AlphaNet::max_extrinsic_weight(), 0);
    assert_eq!(AlphaNet::encode_message(), Err("Sending messages from AlphaNet is not yet supported.".to_string()));
    assert_eq!(BetaNet::name(), "BetaNet");
    assert_eq!(BetaNet::average_block_interval_secs(), 6);
    assert_eq!(AxlibHeadersSyncPipeline::source_name(), "Axlib");
    assert_eq!(AxlibHeadersSyncPipeline::target_name(), "Ethereum");
    assert_eq!(AxlibHeadersSyncPipeline::estimate_size(&vec![1, 2, 3]), 3);
}
