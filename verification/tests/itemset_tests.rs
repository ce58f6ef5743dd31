use stream_cover::catalog::Catalog;
use stream_cover::itemset::ItemSet;
use stream_cover::models::{Coverage, CatalogError, Game, Offer, Package, Row};
use stream_cover::models::parse_binary_flag;
use stream_cover::report::coverage_for_items;

fn game(id: usize, home: &str, away: &str, tournament: &str) -> Game {
    Game {
        id,
        team_home: home.to_string(),
        team_away: away.to_string(),
        starts_at: "2024-01-01".to_string(),
        tournament_name: tournament.to_string(),
    }
}

fn package(id: usize, name: &str, monthly: Option<u32>, yearly: Option<u32>) -> Package {
    Package {
        id,
        name: name.to_string(),
        monthly_price_cents: monthly,
        monthly_price_yearly_subscription_in_cents: yearly,
    }
}

fn offer(game_id: usize, pkg: usize, live: bool, highlights: bool) -> Offer {
    Offer { game_id, streaming_package_id: pkg, live, highlights }
}

fn set_of(items: &[usize]) -> ItemSet {
    let mut s = ItemSet::new();
    for &i in items {
        s.insert(i);
    }
    s
}

#[test]
fn itemset_insert_contains_count() {
    let mut s = ItemSet::new();
    assert!(s.is_empty());
    assert_eq!(s.count(), 0);
    s.insert(3);
    s.insert(100);
    s.insert(3);
    assert!(s.contains(3));
    assert!(s.contains(100));
    assert!(!s.contains(4));
    assert_eq!(s.count(), 2);
    assert!(!s.is_empty());
}

#[test]
fn itemset_union_intersect_difference() {
    let mut a = set_of(&[1, 2, 5]);
    let b = set_of(&[2, 5, 9]);
    a.union_with(&b);
    assert_eq!(a.to_vec(), vec![1, 2, 5, 9]);
    a.intersect_with(&b);
    assert_eq!(a.to_vec(), vec![2, 5, 9]);
    a.difference_with(&set_of(&[5]));
    assert_eq!(a.to_vec(), vec![2, 9]);
}

#[test]
fn itemset_subset_and_equality() {
    let small = set_of(&[2, 4]);
    let big = set_of(&[1, 2, 3, 4]);
    assert!(small.is_subset(&big));
    assert!(!big.is_subset(&small));
    let same = set_of(&[4, 2]);
    assert!(small.set_eq(&same));
    assert!(!small.set_eq(&big));
    assert!(small.intersects(&big));
    assert!(!small.intersects(&set_of(&[7])));
}

#[test]
fn itemset_shift_moves_every_element() {
    let s = set_of(&[0, 3]);
    let up = s.shifted_up(10);
    assert_eq!(up.to_vec(), vec![10, 13]);
}

#[test]
fn catalog_rejects_package_without_any_price() {
    let games = vec![game(1, "A", "B", "X")];
    let packages = vec![package(0, "Bad", None, None)];
    let offers = vec![offer(1, 0, true, false)];
    match Catalog::build(games, packages, offers) {
        Err(CatalogError::PackageWithoutPrice(id)) => assert_eq!(id, 0),
        other => panic!("expected PackageWithoutPrice, got {:?}", other.map(|_| ())),
    }
}

#[test]
fn catalog_rejects_duplicate_package_ids() {
    let games = vec![game(1, "A", "B", "X")];
    let packages = vec![package(7, "P", Some(1), None), package(7, "Q", Some(2), None)];
    match Catalog::build(games, packages, Vec::new()) {
        Err(CatalogError::DuplicatePackageId(id)) => assert_eq!(id, 7),
        other => panic!("expected DuplicatePackageId, got {:?}", other.map(|_| ())),
    }
}

#[test]
fn catalog_rejects_out_of_range_game_id() {
    let games = vec![game(9000, "A", "B", "X")];
    let packages = vec![package(0, "P", Some(1), None)];
    match Catalog::build(games, packages, Vec::new()) {
        Err(CatalogError::LiveIdOutOfRange(id)) => assert_eq!(id, 9000),
        other => panic!("expected LiveIdOutOfRange, got {:?}", other.map(|_| ())),
    }
}

#[test]
fn catalog_rejects_offer_for_unknown_package() {
    let games = vec![game(1, "A", "B", "X")];
    let packages = vec![package(0, "P", Some(1), None)];
    let offers = vec![offer(1, 3, true, false)];
    match Catalog::build(games, packages, offers) {
        Err(CatalogError::OfferForUnknownPackage(id)) => assert_eq!(id, 3),
        other => panic!("expected OfferForUnknownPackage, got {:?}", other.map(|_| ())),
    }
}

#[test]
fn catalog_separates_live_and_highlight_coverage() {
    let games = vec![game(1, "A", "B", "X")];
    let packages = vec![package(0, "P", Some(1), None)];
    let offers = vec![offer(1, 0, true, true)];
    let cat = Catalog::build(games, packages, offers).unwrap();
    assert!(cat.coverage[0].contains(1));
    assert!(cat.coverage[0].contains(1 + stream_cover::models::HIGHLIGHT_OFFSET));
    assert!(cat.all_covered.contains(1));
    assert!(cat.uniquely_covered.contains(1));
    assert_eq!(cat.unique_pkg[1], Some(0));
}

#[test]
fn coverage_grades_none_partial_full() {
    let needed = set_of(&[1, 2]);
    assert_eq!(coverage_for_items(&needed, &set_of(&[3])), Coverage::NONE);
    assert_eq!(coverage_for_items(&needed, &set_of(&[2, 3])), Coverage::PARTIAL);
    assert_eq!(coverage_for_items(&needed, &set_of(&[1, 2, 3])), Coverage::FULL);
    assert_eq!(coverage_for_items(&ItemSet::new(), &set_of(&[1])), Coverage::NONE);
}

#[test]
fn report_rows_carry_their_fields() {
    let leaf = Row::leaf(
        "Team A vs Team B (Cup)".to_string(),
        vec![("P".to_string(), Coverage::FULL)],
        vec![("P".to_string(), Coverage::NONE)],
    );
    assert_eq!(leaf.key, "Team A vs Team B (Cup)");
    assert!(leaf.sub_rows.is_none());
    assert_eq!(leaf.provider_coverage[0].1, Coverage::FULL);
    let group = Row::group("Cup".to_string(), Vec::new(), Vec::new(), vec![leaf]);
    assert_eq!(group.sub_rows.as_ref().map(|v| v.len()), Some(1));
}

#[test]
fn binary_flags_decode_exactly() {
    assert_eq!(parse_binary_flag("1"), Some(true));
    assert_eq!(parse_binary_flag("0"), Some(false));
    assert_eq!(parse_binary_flag(""), None);
    assert_eq!(parse_binary_flag("2"), None);
    assert_eq!(parse_binary_flag("10"), None);
    assert_eq!(parse_binary_flag("true"), None);
}
