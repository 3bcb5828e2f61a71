#[test]
fn test_update_positions() {}

#[test]
fn test_simdata_canonical_positions() {}
