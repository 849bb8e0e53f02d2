use linkscope::session::{
    SessionError, coordinates_ok, export_file_name, graph_budget, key_sizes_ok, positions_ok, query_ok, select, selected,
};
use linkscope::transform::{Manifest, builtins};

fn manifests() -> Vec<Manifest> {
    builtins().into_iter().map(|r| r.0).collect()
}

#[test]
fn memory_budgets_give_the_graph_a_third() {
    assert_eq!(graph_budget(512), Ok(512 * 1024 * 1024 / 3));
    assert_eq!(graph_budget(256), Ok(256 * 1024 * 1024 / 3));
    assert_eq!(graph_budget(4096), Ok(4096 * 1024 * 1024 / 3));
    assert_eq!(graph_budget(255), Err(SessionError::MemoryBudget));
    assert_eq!(graph_budget(4097), Err(SessionError::MemoryBudget));
    assert_eq!(SessionError::MemoryBudget.message(), "memory budget must be 256–4096 MiB");
}

#[test]
fn interface_requests_are_bounded() {
    assert_eq!(positions_ok(256), Ok(()));
    assert_eq!(positions_ok(257), Err(SessionError::TooManyPositions));
    assert_eq!(coordinates_ok(1.5f32.to_bits(), (-3.0f32).to_bits()), Ok(()));
    assert_eq!(coordinates_ok(f32::NAN.to_bits(), 0), Err(SessionError::InvalidCoordinates));
    assert_eq!(coordinates_ok(0, f32::NEG_INFINITY.to_bits()), Err(SessionError::InvalidCoordinates));
    assert_eq!(key_sizes_ok(&"s".repeat(64), &"k".repeat(4096)), Ok(()));
    assert_eq!(key_sizes_ok(&"s".repeat(65), "k"), Err(SessionError::InvalidKeySize));
    assert_eq!(key_sizes_ok("s", &"k".repeat(4097)), Err(SessionError::InvalidKeySize));
    assert_eq!(query_ok(&"q".repeat(512)), Ok(()));
    assert_eq!(query_ok(&"q".repeat(513)), Err(SessionError::QueryTooLong));
}

#[test]
fn runs_take_chosen_transforms_of_the_entity_kind() {
    let ms = manifests();
    assert!(selected(&ms[0], "domain", &vec!["cloudflare".to_string()]));
    assert!(!selected(&ms[0], "ip", &vec!["cloudflare".to_string()]));
    assert!(!selected(&ms[0], "domain", &vec!["google".to_string()]));
    let chosen = select(&ms, "domain", &vec!["google".to_string(), "internetdb".to_string(), "crtsh".to_string()]).unwrap();
    assert_eq!(chosen, vec![1, 2]);
    assert_eq!(select(&ms, "ip", &vec!["google".to_string()]), Err(SessionError::NoTransforms));
}

#[test]
fn export_files_are_named_by_time_and_format() {
    assert_eq!(export_file_name(1700000000, "graphml"), Ok("investigation-1700000000-graphml.graphml".to_string()));
    assert_eq!(export_file_name(5, "stix"), Ok("investigation-5-stix.json".to_string()));
    assert_eq!(export_file_name(5, "pdf"), Err(SessionError::UnsupportedFormat));
}
