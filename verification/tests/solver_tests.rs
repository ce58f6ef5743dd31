use stream_cover::catalog::Catalog;
use stream_cover::itemset::ItemSet;
use stream_cover::models::{Game, Offer, Package, SolveError, SolveRequest, HIGHLIGHT_OFFSET};
use stream_cover::solver::{
    discard_packages_which_cover_same_games, find_minimal_packages, preselect_unique, solve,
};

fn game(id: usize, home: &str, away: &str, tournament: &str) -> Game {
    Game {
        id,
        team_home: home.to_string(),
        team_away: away.to_string(),
        starts_at: "2024-01-01".to_string(),
        tournament_name: tournament.to_string(),
    }
}

fn package(id: usize, name: &str, monthly: Option<u32>, yearly: Option<u32>) -> Package {
    Package {
        id,
        name: name.to_string(),
        monthly_price_cents: monthly,
        monthly_price_yearly_subscription_in_cents: yearly,
    }
}

fn offer(game_id: usize, pkg: usize, live: bool, highlights: bool) -> Offer {
    Offer { game_id, streaming_package_id: pkg, live, highlights }
}

fn request(items: Vec<usize>, live: bool, highlights: bool, monthly: bool) -> SolveRequest {
    SolveRequest {
        items,
        teams: Vec::new(),
        tournaments: Vec::new(),
        live,
        highlights,
        only_monthly_billing: monthly,
        all_items: false,
    }
}

fn set_of(items: &[usize]) -> ItemSet {
    let mut s = ItemSet::new();
    for &i in items {
        s.insert(i);
    }
    s
}

/// Items {1,2,3}; A covers {1,2} at 10, B covers {2,3} at 10, C covers
/// {1,2,3} at 25.  The cheapest cover is {A,B} at 20, not {C} at 25.
#[test]
fn cheapest_pair_beats_single_package() {
    let games = vec![game(1, "T1", "T2", "X"), game(2, "T3", "T4", "X"), game(3, "T5", "T6", "X")];
    let packages = vec![
        package(0, "A", None, Some(10)),
        package(1, "B", None, Some(10)),
        package(2, "C", None, Some(25)),
    ];
    let offers = vec![
        offer(1, 0, true, false),
        offer(2, 0, true, false),
        offer(2, 1, true, false),
        offer(3, 1, true, false),
        offer(1, 2, true, false),
        offer(2, 2, true, false),
        offer(3, 2, true, false),
    ];
    let cat = Catalog::build(games, packages, offers).unwrap();
    let sol = solve(&cat, &request(vec![1, 2, 3], true, false, false)).unwrap();
    let mut got = sol.packages.clone();
    got.sort();
    got.dedup();
    assert_eq!(got, vec![0, 1]);
}

/// An item covered by exactly one monthly-priced package forces that
/// package into the result before the search runs.
#[test]
fn unique_coverer_is_preselected_under_monthly_billing() {
    let games = vec![game(1, "T1", "T2", "X"), game(4, "T7", "T8", "X")];
    let packages = vec![
        package(10, "E", Some(7), None),
        package(11, "F", Some(7), None),
        package(12, "D", Some(5), None),
    ];
    let offers = vec![
        offer(1, 10, true, false),
        offer(1, 11, true, false),
        offer(4, 12, true, false),
    ];
    let cat = Catalog::build(games, packages, offers).unwrap();

    let mut required = set_of(&[1, 4]);
    let forced = preselect_unique(&cat, &mut required, true);
    assert_eq!(forced, vec![12]);
    assert!(required.contains(1));
    assert!(!required.contains(4));

    let sol = solve(&cat, &request(vec![1, 4], true, false, true)).unwrap();
    assert_eq!(sol.packages[0], 12);
    assert!(sol.packages.contains(&10) || sol.packages.contains(&11));
}

/// A required item no candidate covers yields an infeasibility result
/// from the search, not a crash.
#[test]
fn uncoverable_item_reports_infeasibility() {
    let games = vec![game(1, "T1", "T2", "X")];
    let packages = vec![package(0, "A", None, Some(10))];
    let offers = vec![offer(1, 0, true, false)];
    let cat = Catalog::build(games, packages, offers).unwrap();
    let required = set_of(&[5]);
    let r = find_minimal_packages(&required, &cat, vec![0], false);
    assert!(r.is_none());
}

/// Two packages with identical coverage of the required set: the dearer
/// one, listed later, is discarded by the dominance filter.
#[test]
fn dominance_filter_drops_dearer_duplicate_coverage() {
    let games = vec![game(1, "T1", "T2", "X"), game(2, "T3", "T4", "X")];
    let packages = vec![package(0, "Cheap", None, Some(10)), package(1, "Dear", None, Some(15))];
    let offers = vec![
        offer(1, 0, true, false),
        offer(2, 0, true, false),
        offer(1, 1, true, false),
        offer(2, 1, true, false),
    ];
    let cat = Catalog::build(games, packages, offers).unwrap();
    let required = set_of(&[1, 2]);
    let mut candidates = vec![0, 1];
    discard_packages_which_cover_same_games(&required, &mut candidates, &cat, false);
    assert_eq!(candidates, vec![0]);
}

/// An unknown team name is rejected with a not-found signal naming it.
#[test]
fn unknown_team_is_rejected_by_name() {
    let games = vec![game(1, "Known FC", "Other FC", "X")];
    let packages = vec![package(0, "A", None, Some(10))];
    let offers = vec![offer(1, 0, true, false)];
    let cat = Catalog::build(games, packages, offers).unwrap();
    let req = SolveRequest {
        items: Vec::new(),
        teams: vec!["Ghost United".to_string()],
        tournaments: Vec::new(),
        live: true,
        highlights: false,
        only_monthly_billing: false,
        all_items: false,
    };
    match solve(&cat, &req) {
        Err(SolveError::TeamNotFound(t)) => assert_eq!(t, "Ghost United"),
        other => panic!("expected TeamNotFound, got {:?}", other.map(|s| s.packages)),
    }
}

#[test]
fn unknown_tournament_is_rejected_by_name() {
    let games = vec![game(1, "A FC", "B FC", "Cup")];
    let packages = vec![package(0, "A", None, Some(10))];
    let offers = vec![offer(1, 0, true, false)];
    let cat = Catalog::build(games, packages, offers).unwrap();
    let req = SolveRequest {
        items: Vec::new(),
        teams: Vec::new(),
        tournaments: vec!["League".to_string()],
        live: true,
        highlights: false,
        only_monthly_billing: false,
        all_items: false,
    };
    match solve(&cat, &req) {
        Err(SolveError::TournamentNotFound(t)) => assert_eq!(t, "League"),
        other => panic!("expected TournamentNotFound, got {:?}", other.map(|s| s.packages)),
    }
}

#[test]
fn neither_variant_requested_is_rejected() {
    let games = vec![game(1, "T1", "T2", "X")];
    let packages = vec![package(0, "A", None, Some(10))];
    let offers = vec![offer(1, 0, true, false)];
    let cat = Catalog::build(games, packages, offers).unwrap();
    match solve(&cat, &request(vec![1], false, false, false)) {
        Err(SolveError::NoVariantRequested) => {},
        other => panic!("expected NoVariantRequested, got {:?}", other.map(|s| s.packages)),
    }
}

/// The returned selection's coverage always spans the resolved required
/// set, and identical requests give bit-for-bit identical answers.
#[test]
fn solution_covers_required_set_and_is_deterministic() {
    let games = vec![
        game(1, "T1", "T2", "X"),
        game(2, "T3", "T4", "X"),
        game(3, "T5", "T6", "Y"),
        game(4, "T7", "T8", "Y"),
    ];
    let packages = vec![
        package(0, "A", Some(12), Some(10)),
        package(1, "B", None, Some(9)),
        package(2, "C", Some(20), Some(18)),
    ];
    let offers = vec![
        offer(1, 0, true, true),
        offer(2, 0, true, false),
        offer(2, 1, true, false),
        offer(3, 1, true, true),
        offer(4, 2, true, false),
        offer(1, 2, true, false),
    ];
    let cat = Catalog::build(games, packages, offers).unwrap();
    let req = request(vec![1, 2, 3, 4], true, false, false);
    let sol1 = solve(&cat, &req).unwrap();
    let sol2 = solve(&cat, &req).unwrap();
    assert_eq!(sol1.packages, sol2.packages);
    assert!(sol1.required.set_eq(&sol2.required));

    let mut covered = ItemSet::new();
    for &p in sol1.packages.iter() {
        covered.union_with(&cat.coverage[p]);
    }
    assert!(sol1.required.is_subset(&covered));
}

/// Resolving the same request twice yields bit-for-bit identical required
/// sets.
#[test]
fn resolution_is_idempotent() {
    let games = vec![game(1, "T1", "T2", "X"), game(2, "T1", "T3", "Y")];
    let packages = vec![package(0, "A", Some(5), Some(4))];
    let offers = vec![offer(1, 0, true, true), offer(2, 0, true, false)];
    let cat = Catalog::build(games, packages, offers).unwrap();
    let req = SolveRequest {
        items: vec![2],
        teams: vec!["T1".to_string()],
        tournaments: vec!["X".to_string()],
        live: true,
        highlights: true,
        only_monthly_billing: false,
        all_items: false,
    };
    let r1 = stream_cover::resolver::resolve_required(&cat, &req).unwrap();
    let r2 = stream_cover::resolver::resolve_required(&cat, &req).unwrap();
    assert!(r1.set_eq(&r2));
}

/// A highlights-only request shifts the required items into the highlight
/// id range.
#[test]
fn highlights_only_request_targets_highlight_variants() {
    let games = vec![game(1, "T1", "T2", "X")];
    let packages = vec![package(0, "A", None, Some(10)), package(1, "B", None, Some(3))];
    // A supplies the highlight variant of game 1; B supplies only live.
    let offers = vec![offer(1, 0, false, true), offer(1, 1, true, false)];
    let cat = Catalog::build(games, packages, offers).unwrap();
    let sol = solve(&cat, &request(vec![1], false, true, false)).unwrap();
    assert!(sol.required.contains(1 + HIGHLIGHT_OFFSET));
    assert!(!sol.required.contains(1));
    assert_eq!(sol.packages, vec![0]);
}

/// Requesting everything covers all items any package supplies.
#[test]
fn all_items_request_covers_whole_catalog() {
    let games = vec![game(1, "T1", "T2", "X"), game(2, "T3", "T4", "Y")];
    let packages = vec![package(0, "A", None, Some(10)), package(1, "B", None, Some(7))];
    let offers = vec![offer(1, 0, true, false), offer(2, 1, true, false)];
    let cat = Catalog::build(games, packages, offers).unwrap();
    let req = SolveRequest {
        items: Vec::new(),
        teams: Vec::new(),
        tournaments: Vec::new(),
        live: true,
        highlights: false,
        only_monthly_billing: false,
        all_items: true,
    };
    let sol = solve(&cat, &req).unwrap();
    assert!(sol.required.contains(1));
    assert!(sol.required.contains(2));
    let mut got = sol.packages.clone();
    got.sort();
    assert_eq!(got, vec![0, 1]);
}

/// A request under monthly billing ignores items only yearly-priced
/// packages can supply.
#[test]
fn monthly_billing_restricts_universe() {
    let games = vec![game(1, "T1", "T2", "X"), game(2, "T3", "T4", "X")];
    let packages = vec![package(0, "A", Some(5), None), package(1, "B", None, Some(3))];
    let offers = vec![offer(1, 0, true, false), offer(2, 1, true, false)];
    let cat = Catalog::build(games, packages, offers).unwrap();
    let sol = solve(&cat, &request(vec![1, 2], true, false, true)).unwrap();
    assert!(sol.required.contains(1));
    assert!(!sol.required.contains(2));
    assert_eq!(sol.packages, vec![0]);
}

/// With no rarely-covered item, the search starts from the empty selection
/// and still finds the cheapest cover.
#[test]
fn search_without_rare_items_starts_from_empty_selection() {
    let games = vec![game(1, "T1", "T2", "X")];
    let packages = vec![
        package(0, "P0", None, Some(9)),
        package(1, "P1", None, Some(4)),
        package(2, "P2", None, Some(6)),
        package(3, "P3", None, Some(8)),
        package(4, "P4", None, Some(5)),
    ];
    let offers = vec![
        offer(1, 0, true, false),
        offer(1, 1, true, false),
        offer(1, 2, true, false),
        offer(1, 3, true, false),
        offer(1, 4, true, false),
    ];
    let cat = Catalog::build(games, packages, offers).unwrap();
    let sol = solve(&cat, &request(vec![1], true, false, false)).unwrap();
    assert_eq!(sol.packages, vec![1]);
}

/// A package lacking the price field of the active billing mode is never
/// selected in that mode.
#[test]
fn package_without_yearly_price_is_ineligible_in_yearly_mode() {
    let games = vec![game(1, "T1", "T2", "X")];
    let packages = vec![
        package(0, "MonthlyOnly", Some(1), None),
        package(1, "Yearly", None, Some(50)),
    ];
    let offers = vec![offer(1, 0, true, false), offer(1, 1, true, false)];
    let cat = Catalog::build(games, packages, offers).unwrap();
    let sol = solve(&cat, &request(vec![1], true, false, false)).unwrap();
    assert_eq!(sol.packages, vec![1]);
}

/// A second filter pass removes nothing: no survivor is dominated by an
/// earlier survivor.
#[test]
fn dominance_filter_is_idempotent() {
    let games = vec![game(1, "T1", "T2", "X"), game(2, "T3", "T4", "X"), game(3, "T5", "T6", "X")];
    let packages = vec![
        package(0, "P0", None, Some(12)),
        package(1, "P1", None, Some(12)),
        package(2, "P2", None, Some(5)),
        package(3, "P3", None, Some(9)),
    ];
    let offers = vec![
        offer(1, 0, true, false),
        offer(2, 0, true, false),
        offer(1, 1, true, false),
        offer(2, 1, true, false),
        offer(2, 2, true, false),
        offer(3, 3, true, false),
    ];
    let cat = Catalog::build(games, packages, offers).unwrap();
    let required = set_of(&[1, 2, 3]);
    let mut once = vec![0, 1, 2, 3];
    discard_packages_which_cover_same_games(&required, &mut once, &cat, false);
    let mut twice = once.clone();
    discard_packages_which_cover_same_games(&required, &mut twice, &cat, false);
    assert_eq!(once, twice);
}

/// An empty required set needs nothing: the search returns the empty
/// selection at price zero.
#[test]
fn empty_required_set_selects_nothing() {
    let games = vec![game(1, "T1", "T2", "X")];
    let packages = vec![package(0, "A", None, Some(10))];
    let offers = vec![offer(1, 0, true, false)];
    let cat = Catalog::build(games, packages, offers).unwrap();
    let r = find_minimal_packages(&ItemSet::new(), &cat, vec![0], false);
    assert_eq!(r, Some(vec![]));
}

/// When one eligible package covers the whole required set, the solver
/// always succeeds: no-solution is impossible by contract.
#[test]
fn single_full_coverer_always_succeeds() {
    let games = vec![game(1, "T1", "T2", "X"), game(2, "T3", "T4", "X"), game(3, "T5", "T6", "X")];
    let packages = vec![
        package(0, "Partial", None, Some(1)),
        package(1, "Everything", None, Some(30)),
    ];
    let offers = vec![
        offer(1, 0, true, false),
        offer(1, 1, true, false),
        offer(2, 1, true, false),
        offer(3, 1, true, false),
    ];
    let cat = Catalog::build(games, packages, offers).unwrap();
    let sol = solve(&cat, &request(vec![1, 2, 3], true, false, false)).unwrap();
    let mut covered = ItemSet::new();
    for &p in sol.packages.iter() {
        covered.union_with(&cat.coverage[p]);
    }
    assert!(sol.required.is_subset(&covered));
}
