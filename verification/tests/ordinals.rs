//! Subsidies and satoshi numbers.
use chainhook_hord::ord::{Height, Sat, SUPPLY};
use chainhook_hord::traversal::TraversalResult;

fn result(ordinal_number: u64) -> TraversalResult {
    TraversalResult { inscription_number: 0, ordinal_number, transfers: 0 }
}

#[test]
fn starting_sats() {
    assert_eq!(Height(0).starting_sat().n(), 0);
    assert_eq!(Height(1).starting_sat().n(), 5_000_000_000);
    assert_eq!(Height(2).starting_sat().n(), 10_000_000_000);
    assert_eq!(Height(210_000).starting_sat().n(), 1_050_000_000_000_000);
    assert_eq!(Height(210_001).starting_sat().n(), 1_050_002_500_000_000);
    assert_eq!(Height(6_929_999).starting_sat().n(), SUPPLY - 1);
    assert_eq!(Height(6_930_000).starting_sat().n(), SUPPLY);
    assert_eq!(Height(u64::MAX).starting_sat().n(), 2_099_999_997_690_000);
}

#[test]
fn heights_of_sats() {
    assert_eq!(Sat(0).height().n(), 0);
    assert_eq!(Sat(4_999_999_999).height().n(), 0);
    assert_eq!(Sat(5_000_000_000).height().n(), 1);
    assert_eq!(Sat(1_049_999_999_999_999).height().n(), 209_999);
    assert_eq!(Sat(1_050_000_000_000_000).height().n(), 210_000);
    assert_eq!(Sat(SUPPLY - 1).height().n(), 6_929_999);
    assert_eq!(Sat(17).n(), 17);
    assert_eq!(Height(17).n(), 17);
}

#[test]
fn starting_sat_and_height_are_inverse() {
    for height in [0u64, 1, 209_999, 210_000, 767_430, 6_929_999] {
        let first = Height(height).starting_sat();
        assert_eq!(first.height().n(), height);
        if height > 0 {
            assert_eq!(Sat(first.n() - 1).height().n(), height - 1);
        }
    }
}

#[test]
fn coinbase_height_and_offset() {
    let traced = result(50_000_000_010);
    assert_eq!(traced.get_ordinal_coinbase_height(), 10);
    assert_eq!(traced.get_ordinal_coinbase_offset(), 10);
    let traced = result(1_050_002_500_000_000 + 7);
    assert_eq!(traced.get_ordinal_coinbase_height(), 210_001);
    assert_eq!(traced.get_ordinal_coinbase_offset(), 7);
    assert_eq!(result(0).get_ordinal_coinbase_offset(), 0);
}
