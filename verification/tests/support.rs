use m0_core::errors::ApiError;
use m0_core::errors::IndexerError;
use m0_core::parsers::contains_pattern;
use m0_core::parsers::parse_oracle_log;
use m0_core::parsers::parse_registry_log;
use m0_core::reorg::ReorgState;
use m0_core::storage::ChStore;
use m0_core::ttl::Ttl;

#[test]
fn ttl_expires_from_its_instant_onward() {
    let entry = Ttl::new("value", 100, 1000);
    assert_eq!(entry.expires_at, 1100);
    assert!(!entry.expired(1000));
    assert!(!entry.expired(1099));
    assert!(entry.expired(1100));
    assert!(entry.expired(2000));
    assert_eq!(entry.value, "value");
}

#[test]
fn reorg_state_never_moves_backward() {
    let mut state = ReorgState::default();
    assert_eq!(state.last_finalized_slot, 0);
    state.observe_finalized(10);
    assert_eq!(state.last_finalized_slot, 10);
    state.observe_finalized(7);
    assert_eq!(state.last_finalized_slot, 10);
    state.observe_finalized(11);
    assert_eq!(state.last_finalized_slot, 11);
}

#[test]
fn registry_lines_are_recognized_by_marker() {
    let ev = parse_registry_log(42, "xx M0_REGISTRY market upsert").unwrap();
    assert_eq!(ev.slot, 42);
    assert_eq!(ev.market_id, "DEMO");
    assert_eq!(ev.action, "upsert");
    assert!(parse_registry_log(42, "M0_ORACLE bundle").is_none());
    assert!(parse_registry_log(42, "").is_none());
}

#[test]
fn oracle_lines_keep_the_raw_payload() {
    let ev = parse_oracle_log(7, "M0_ORACLE bundle published").unwrap();
    assert_eq!(ev.slot, 7);
    assert_eq!(ev.market_id, "DEMO");
    assert_eq!(ev.epoch_id, 1);
    assert_eq!(ev.payload_raw, "M0_ORACLE bundle published");
    assert!(parse_oracle_log(7, "M0_REGISTRY market upsert").is_none());
}

#[test]
fn pattern_search_edges() {
    assert!(contains_pattern("M0_ORACLE", "M0_ORACLE"));
    assert!(contains_pattern("x M0_ORACLE", "M0_ORACLE"));
    assert!(contains_pattern("M0_ORACLE x", "M0_ORACLE"));
    assert!(!contains_pattern("M0_ORACL", "M0_ORACLE"));
    assert!(!contains_pattern("", "M0_ORACLE"));
    assert!(contains_pattern("anything", ""));
}

#[test]
fn api_errors_map_to_status_and_message() {
    assert_eq!(ApiError::Unauthorized.status_code(), 401);
    assert_eq!(ApiError::Forbidden.status_code(), 403);
    assert_eq!(ApiError::NotFound.status_code(), 404);
    assert_eq!(ApiError::BadRequest("x".to_string()).status_code(), 400);
    assert_eq!(ApiError::Internal.status_code(), 500);
    assert_eq!(ApiError::Unauthorized.message(), "unauthorized");
    assert_eq!(ApiError::Forbidden.message(), "forbidden");
    assert_eq!(ApiError::NotFound.message(), "not found");
    assert_eq!(
        ApiError::BadRequest("missing field".to_string()).message(),
        "bad request: missing field"
    );
    assert_eq!(ApiError::Internal.message(), "internal error");
}

#[test]
fn indexer_errors_name_their_stage() {
    assert_eq!(IndexerError::Rpc("down".to_string()).message(), "rpc error: down");
    assert_eq!(IndexerError::Storage("full".to_string()).message(), "storage error: full");
    assert_eq!(IndexerError::Parse("bad".to_string()).message(), "parse error: bad");
}

#[test]
fn ch_store_keeps_its_endpoint() {
    let store = ChStore::new("http://localhost:8123");
    assert_eq!(store.url, "http://localhost:8123");
}
