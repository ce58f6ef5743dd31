//! The coverage catalog: built once from raw game, package and offer
//! records, then shared read-only by every request.
//!
//! It holds each package's coverage as a bit-vector over item ids, the two
//! coverage universes (all packages, and monthly-priced packages only),
//! the items covered by exactly one package, and the lookup tables from
//! team and tournament names to live item ids.

use vstd::prelude::*;
use crate::itemset::ItemSet;
use crate::models::{CatalogError, Game, Offer, Package, HIGHLIGHT_OFFSET};

verus! {

/// Largest allowed package count and package id: keeps cumulative prices
/// inside a 64-bit accumulator and index vectors addressable.
pub const MAX_PACKAGES: usize = 0xFFFF_FFFF;

/// Does package id `id` cover item `it`, given the id-to-index map and the
/// per-id coverage vectors?
pub open spec fn id_covers(
    pkg_of_id: Seq<Option<usize>>,
    coverage: Seq<ItemSet>,
    id: int,
    it: int,
) -> bool {
    0 <= id < pkg_of_id.len() && pkg_of_id[id] is Some && coverage[id]@.contains(it)
}

/// The items that the offers in `os` give to package id `id`.
pub open spec fn offer_items(os: Seq<Offer>, id: int) -> Set<int> {
    Set::new(
        |it: int|
            exists|k: int|
                0 <= k < os.len() && #[trigger] offer_gives(os[k], id, it),
    )
}

/// Does one offer record give item `it` to package id `id`?
pub open spec fn offer_gives(o: Offer, id: int, it: int) -> bool {
    o.streaming_package_id == id && ((o.live && it == o.game_id) || (o.highlights && it
        == o.game_id + HIGHLIGHT_OFFSET))
}

/// The live item ids of the games in which the named team plays.
pub open spec fn team_items(games: Seq<Game>, name: Seq<char>) -> Set<int> {
    Set::new(
        |it: int|
            exists|i: int|
                0 <= i < games.len() && #[trigger] games[i].id == it && (games[i].team_home@
                    == name || games[i].team_away@ == name),
    )
}

/// The live item ids of the games of the named tournament.
pub open spec fn tournament_items(games: Seq<Game>, name: Seq<char>) -> Set<int> {
    Set::new(
        |it: int|
            exists|i: int|
                0 <= i < games.len() && #[trigger] games[i].id == it
                    && games[i].tournament_name@ == name,
    )
}

/// Is `name` a team of some game?
pub open spec fn team_known(games: Seq<Game>, name: Seq<char>) -> bool {
    exists|i: int|
        0 <= i < games.len() && ((#[trigger] games[i]).team_home@ == name
            || games[i].team_away@ == name)
}

/// Is `name` the tournament of some game?
pub open spec fn tournament_known(games: Seq<Game>, name: Seq<char>) -> bool {
    exists|i: int| 0 <= i < games.len() && (#[trigger] games[i]).tournament_name@ == name
}

/// Does the name table hold an entry for `name`?
pub open spec fn table_has(table: Seq<(String, ItemSet)>, name: Seq<char>) -> bool {
    exists|k: int| 0 <= k < table.len() && (#[trigger] table[k]).0@ == name
}

/// The entries of the table carry distinct names.
pub open spec fn table_distinct(table: Seq<(String, ItemSet)>) -> bool {
    forall|k1: int, k2: int|
        0 <= k1 < k2 < table.len() ==> (#[trigger] table[k1]).0@ != (#[trigger] table[k2]).0@
}

/// The team table of `games`: one entry per team, holding its item ids.
pub open spec fn team_table_ok(games: Seq<Game>, table: Seq<(String, ItemSet)>) -> bool {
    &&& forall|k: int|
        0 <= k < table.len() ==> (#[trigger] table[k]).1@ == team_items(games, table[k].0@)
    &&& table_distinct(table)
    &&& forall|i: int|
        0 <= i < games.len() ==> table_has(table, (#[trigger] games[i]).team_home@)
            && table_has(table, games[i].team_away@)
    &&& forall|k: int| 0 <= k < table.len() ==> team_known(games, (#[trigger] table[k]).0@)
}

/// The tournament table of `games`.
pub open spec fn tournament_table_ok(games: Seq<Game>, table: Seq<(String, ItemSet)>) -> bool {
    &&& forall|k: int|
        0 <= k < table.len() ==> (#[trigger] table[k]).1@ == tournament_items(
            games,
            table[k].0@,
        )
    &&& table_distinct(table)
    &&& forall|i: int|
        0 <= i < games.len() ==> table_has(table, (#[trigger] games[i]).tournament_name@)
    &&& forall|k: int|
        0 <= k < table.len() ==> tournament_known(games, (#[trigger] table[k]).0@)
}

pub struct Catalog {
    pub games: Vec<Game>,
    pub packages: Vec<Package>,
    /// Indexed by package id: the items that package supplies.
    pub coverage: Vec<ItemSet>,
    /// Indexed by package id: the index of that package in `packages`.
    pub pkg_of_id: Vec<Option<usize>>,
    /// Team name to the live item ids of its games.
    pub teams: Vec<(String, ItemSet)>,
    /// Tournament name to the live item ids of its games.
    pub tournaments: Vec<(String, ItemSet)>,
    /// Indexed by item id: the sole package covering it, if exactly one does.
    pub unique_pkg: Vec<Option<usize>>,
    /// The items covered by exactly one package.
    pub uniquely_covered: ItemSet,
    /// The items some package covers.
    pub all_covered: ItemSet,
    /// The items some monthly-priced package covers.
    pub monthly_covered: ItemSet,
}

impl Catalog {
    /// Is `id` the id of a catalog package?
    pub open spec fn valid_pkg(self, id: int) -> bool {
        0 <= id < self.pkg_of_id@.len() && self.pkg_of_id@[id] is Some
    }

    /// The package with id `id`.
    pub open spec fn pkg_at(self, id: int) -> Package {
        self.packages@[self.pkg_of_id@[id]->Some_0 as int]
    }

    /// Does package id `id` cover item `it`?
    pub open spec fn covers(self, id: int, it: int) -> bool {
        id_covers(self.pkg_of_id@, self.coverage@, id, it)
    }

    /// Is `id` a package id carrying the price field of the given billing
    /// mode?
    pub open spec fn mode_eligible(self, id: int, monthly: bool) -> bool {
        self.valid_pkg(id) && (if monthly {
            self.pkg_at(id).monthly_price_cents is Some
        } else {
            self.pkg_at(id).monthly_price_yearly_subscription_in_cents is Some
        })
    }

    /// The price of package id `id` under the given billing mode.
    pub open spec fn mode_price(self, id: int, monthly: bool) -> int {
        if monthly {
            self.pkg_at(id).monthly_price_cents->Some_0 as int
        } else {
            self.pkg_at(id).monthly_price_yearly_subscription_in_cents->Some_0 as int
        }
    }

    /// The coverable universe under the given billing mode.
    pub open spec fn universe(self, monthly: bool) -> Set<int> {
        if monthly {
            self.monthly_covered@
        } else {
            self.all_covered@
        }
    }

    /// Well-formedness: the derived structures agree with the records.
    pub open spec fn wf(self) -> bool {
        &&& self.coverage@.len() == self.pkg_of_id@.len()
        &&& self.packages@.len() < MAX_PACKAGES
        &&& forall|j: int|
            0 <= j < self.packages@.len() ==> (#[trigger] self.packages@[j]).id
                < self.pkg_of_id@.len() && self.pkg_of_id@[self.packages@[j].id as int] == Some(
                j as usize,
            )
        &&& forall|id: int|
            self.valid_pkg(id) ==> (#[trigger] self.pkg_of_id@[id])->Some_0
                < self.packages@.len() && self.packages@[self.pkg_of_id@[id]->Some_0 as int].id
                == id
        &&& forall|j: int|
            0 <= j < self.packages@.len() ==> (#[trigger] self.packages@[j]).monthly_price_cents
                is Some || self.packages@[j].monthly_price_yearly_subscription_in_cents is Some
        &&& forall|i: int|
            0 <= i < self.games@.len() ==> (#[trigger] self.games@[i]).id < HIGHLIGHT_OFFSET
        &&& forall|id: int|
            0 <= id < self.coverage@.len() && self.pkg_of_id@[id] is None ==> (
            #[trigger] self.coverage@[id])@ == Set::<int>::empty()
        &&& forall|id: int, it: int|
            self.covers(id, it) ==> 0 <= it < 2 * HIGHLIGHT_OFFSET
        &&& forall|it: int| #[trigger] self.all_covered@.contains(it) ==> exists|id: int|
            self.covers(id, it)
        &&& forall|id: int, it: int| #[trigger] self.covers(id, it) ==> self.all_covered@.contains(
            it,
        )
        &&& forall|it: int| #[trigger] self.monthly_covered@.contains(it) ==> exists|id: int|
            self.mode_eligible(id, true) && #[trigger] self.covers(id, it)
        &&& forall|id: int, it: int|
            self.mode_eligible(id, true) && #[trigger] self.covers(id, it)
                ==> self.monthly_covered@.contains(it)
        &&& self.unique_pkg@.len() == 2 * HIGHLIGHT_OFFSET
        &&& forall|it: int|
            0 <= it < self.unique_pkg@.len() && (#[trigger] self.unique_pkg@[it]) is Some
                ==> self.covers(self.unique_pkg@[it]->Some_0 as int, it)
        &&& forall|it: int, id2: int|
            0 <= it < self.unique_pkg@.len() && (#[trigger] self.unique_pkg@[it]) is Some && (
            #[trigger] self.covers(id2, it)) ==> id2 == self.unique_pkg@[it]->Some_0 as int
        &&& forall|it: int, id2: int|
            0 <= it < self.unique_pkg@.len() && (#[trigger] self.unique_pkg@[it]) is None && (
            #[trigger] self.covers(id2, it)) ==> exists|id3: int|
                id3 != id2 && self.covers(id3, it)
        &&& forall|it: int| #[trigger] self.uniquely_covered@.contains(it) ==> 0 <= it
            < self.unique_pkg@.len() && self.unique_pkg@[it] is Some
        &&& forall|it: int|
            0 <= it < self.unique_pkg@.len() && (#[trigger] self.unique_pkg@[it]) is Some
                ==> self.uniquely_covered@.contains(it)
        &&& self.table_wf_teams()
        &&& self.table_wf_tournaments()
    }

    /// Does the team table hold an entry for `name`?
    pub open spec fn has_team(self, name: Seq<char>) -> bool {
        table_has(self.teams@, name)
    }

    /// Does the tournament table hold an entry for `name`?
    pub open spec fn has_tournament(self, name: Seq<char>) -> bool {
        table_has(self.tournaments@, name)
    }

    /// The team table carries exactly the teams of the games, each once.
    pub open spec fn table_wf_teams(self) -> bool {
        team_table_ok(self.games@, self.teams@)
    }

    /// The tournament table carries exactly the tournaments of the games.
    pub open spec fn table_wf_tournaments(self) -> bool {
        tournament_table_ok(self.games@, self.tournaments@)
    }

    /// Looks a team name up; `None` exactly when no game has the team.
    pub fn lookup_team(&self, name: &String) -> (r: Option<&ItemSet>)
        requires
            self.wf(),
        ensures
            match r {
                Some(s) => s@ == team_items(self.games@, name@) && team_known(self.games@, name@),
                None => forall|i: int|
                    0 <= i < self.games@.len() ==> (#[trigger] self.games@[i]).team_home@ != name@
                        && self.games@[i].team_away@ != name@,
            },
    {
        let mut k: usize = 0;
        while k < self.teams.len()
            invariant
                self.wf(),
                k <= self.teams@.len(),
                forall|k2: int| 0 <= k2 < k ==> (#[trigger] self.teams@[k2].0)@ != name@,
            decreases self.teams@.len() - k,
        {
            if self.teams[k].0 == *name {
                return Some(&self.teams[k].1);
            }
            k = k + 1;
        }
        proof {
            assert forall|i: int|
                0 <= i < self.games@.len() implies (#[trigger] self.games@[i]).team_home@ != name@
                && self.games@[i].team_away@ != name@ by {
                if self.games@[i].team_home@ == name@ || self.games@[i].team_away@ == name@ {
                    assert(self.has_team(name@));
                    let kk = choose|kk: int|
                        0 <= kk < self.teams@.len() && (#[trigger] self.teams@[kk]).0@ == name@;
                    assert(false);
                }
            }
        }
        None
    }

    /// Looks a tournament name up; `None` exactly when no game has it.
    pub fn lookup_tournament(&self, name: &String) -> (r: Option<&ItemSet>)
        requires
            self.wf(),
        ensures
            match r {
                Some(s) => s@ == tournament_items(self.games@, name@) && tournament_known(
                    self.games@,
                    name@,
                ),
                None => forall|i: int|
                    0 <= i < self.games@.len() ==> (#[trigger] self.games@[i]).tournament_name@
                        != name@,
            },
    {
        let mut k: usize = 0;
        while k < self.tournaments.len()
            invariant
                self.wf(),
                k <= self.tournaments@.len(),
                forall|k2: int| 0 <= k2 < k ==> (#[trigger] self.tournaments@[k2].0)@ != name@,
            decreases self.tournaments@.len() - k,
        {
            if self.tournaments[k].0 == *name {
                return Some(&self.tournaments[k].1);
            }
            k = k + 1;
        }
        proof {
            assert forall|i: int|
                0 <= i < self.games@.len() implies (#[trigger] self.games@[i]).tournament_name@
                != name@ by {
                if self.games@[i].tournament_name@ == name@ {
                    assert(self.has_tournament(name@));
                    let kk = choose|kk: int|
                        0 <= kk < self.tournaments@.len() && (#[trigger] self.tournaments@[kk]).0@
                            == name@;
                    assert(false);
                }
            }
        }
        None
    }
}

/// Is the raw input acceptable for a catalog?  Exactly the conditions under
/// which `Catalog::build` succeeds.
pub open spec fn input_ok(games: Seq<Game>, packages: Seq<Package>, offers: Seq<Offer>) -> bool {
    &&& packages.len() < MAX_PACKAGES
    &&& forall|i: int| 0 <= i < games.len() ==> (#[trigger] games[i]).id < HIGHLIGHT_OFFSET
    &&& forall|j: int| 0 <= j < packages.len() ==> (#[trigger] packages[j]).id < MAX_PACKAGES
    &&& forall|j1: int, j2: int|
        0 <= j1 < j2 < packages.len() ==> (#[trigger] packages[j1]).id != (
        #[trigger] packages[j2]).id
    &&& forall|j: int|
        0 <= j < packages.len() ==> (#[trigger] packages[j]).monthly_price_cents is Some
            || packages[j].monthly_price_yearly_subscription_in_cents is Some
    &&& forall|k: int|
        0 <= k < offers.len() ==> (#[trigger] offers[k]).game_id < HIGHLIGHT_OFFSET && (exists|
            j: int,
        |
            0 <= j < packages.len() && (#[trigger] packages[j]).id
                == offers[k].streaming_package_id)
}

/// Does an offer name a known package and an in-range game id?
pub open spec fn offer_ok(o: Offer, idx: Seq<Option<usize>>) -> bool {
    o.game_id < HIGHLIGHT_OFFSET && o.streaming_package_id < idx.len()
        && idx[o.streaming_package_id as int] is Some
}

fn check_games(games: &Vec<Game>) -> (r: Option<usize>)
    ensures
        match r {
            None => forall|i: int|
                0 <= i < games@.len() ==> (#[trigger] games@[i]).id < HIGHLIGHT_OFFSET,
            Some(g) => g >= HIGHLIGHT_OFFSET && exists|i: int|
                0 <= i < games@.len() && (#[trigger] games@[i]).id == g,
        },
{
    let mut i: usize = 0;
    while i < games.len()
        invariant
            i <= games@.len(),
            forall|i2: int| 0 <= i2 < i ==> (#[trigger] games@[i2]).id < HIGHLIGHT_OFFSET,
        decreases games@.len() - i,
    {
        if games[i].id >= HIGHLIGHT_OFFSET {
            return Some(games[i].id);
        }
        i = i + 1;
    }
    None
}

fn build_pkg_index(packages: &Vec<Package>) -> (r: Result<Vec<Option<usize>>, CatalogError>)
    requires
        packages@.len() < MAX_PACKAGES,
    ensures
        match r {
            Ok(idx) => {
                &&& idx@.len() <= MAX_PACKAGES
                &&& forall|j: int|
                    0 <= j < packages@.len() ==> (#[trigger] packages@[j]).id < idx@.len()
                        && idx@[packages@[j].id as int] == Some(j as usize)
                &&& forall|id: int|
                    0 <= id < idx@.len() && (#[trigger] idx@[id]) is Some ==> idx@[id]->Some_0
                        < packages@.len() && packages@[idx@[id]->Some_0 as int].id == id
            },
            Err(e) => {
                ||| (e matches CatalogError::TooManyPackages && exists|j: int|
                    0 <= j < packages@.len() && (#[trigger] packages@[j]).id >= MAX_PACKAGES)
                ||| (e matches CatalogError::DuplicatePackageId(d) && exists|j1: int, j2: int|
                    0 <= j1 < j2 < packages@.len() && (#[trigger] packages@[j1]).id == (
                    #[trigger] packages@[j2]).id && packages@[j1].id == d)
            },
        },
{
    let mut n_ids: usize = 0;
    let mut j: usize = 0;
    while j < packages.len()
        invariant
            j <= packages@.len(),
            n_ids <= MAX_PACKAGES,
            forall|j2: int| 0 <= j2 < j ==> (#[trigger] packages@[j2]).id < n_ids,
        decreases packages@.len() - j,
    {
        let id = packages[j].id;
        if id >= MAX_PACKAGES {
            return Err(CatalogError::TooManyPackages);
        }
        if id + 1 > n_ids {
            n_ids = id + 1;
        }
        j = j + 1;
    }
    let mut idx: Vec<Option<usize>> = Vec::new();
    while idx.len() < n_ids
        invariant
            idx@.len() <= n_ids,
            forall|id: int| 0 <= id < idx@.len() ==> (#[trigger] idx@[id]) is None,
        decreases n_ids - idx@.len(),
    {
        idx.push(None);
    }
    let mut j: usize = 0;
    while j < packages.len()
        invariant
            j <= packages@.len(),
            idx@.len() == n_ids,
            forall|j2: int| 0 <= j2 < j ==> (#[trigger] packages@[j2]).id < n_ids,
            forall|j2: int|
                0 <= j2 < packages@.len() ==> (#[trigger] packages@[j2]).id < n_ids,
            forall|j2: int|
                0 <= j2 < j ==> idx@[(#[trigger] packages@[j2]).id as int] == Some(j2 as usize),
            forall|id: int|
                0 <= id < idx@.len() && (#[trigger] idx@[id]) is Some ==> idx@[id]->Some_0 < j
                    && packages@[idx@[id]->Some_0 as int].id == id,
        decreases packages@.len() - j,
    {
        let id = packages[j].id;
        if idx[id].is_some() {
            proof {
                let j1 = idx@[id as int]->Some_0 as int;
                assert(0 <= j1 < j && packages@[j1].id == id);
            }
            return Err(CatalogError::DuplicatePackageId(id));
        }
        idx[id] = Some(j);
        j = j + 1;
    }
    Ok(idx)
}

fn check_prices(packages: &Vec<Package>) -> (r: Option<usize>)
    ensures
        match r {
            None => forall|j: int|
                0 <= j < packages@.len() ==> (#[trigger] packages@[j]).monthly_price_cents
                    is Some || packages@[j].monthly_price_yearly_subscription_in_cents is Some,
            Some(d) => exists|j: int|
                0 <= j < packages@.len() && (#[trigger] packages@[j]).id == d
                    && packages@[j].monthly_price_cents is None
                    && packages@[j].monthly_price_yearly_subscription_in_cents is None,
        },
{
    let mut j: usize = 0;
    while j < packages.len()
        invariant
            j <= packages@.len(),
            forall|j2: int|
                0 <= j2 < j ==> (#[trigger] packages@[j2]).monthly_price_cents is Some
                    || packages@[j2].monthly_price_yearly_subscription_in_cents is Some,
        decreases packages@.len() - j,
    {
        if packages[j].monthly_price_cents.is_none()
            && packages[j].monthly_price_yearly_subscription_in_cents.is_none() {
            return Some(packages[j].id);
        }
        j = j + 1;
    }
    None
}

fn check_offers(offers: &Vec<Offer>, idx: &Vec<Option<usize>>) -> (r: Option<CatalogError>)
    ensures
        match r {
            None => forall|k: int| 0 <= k < offers@.len() ==> offer_ok(#[trigger] offers@[k], idx@),
            Some(e) => (exists|k: int| 0 <= k < offers@.len() && !offer_ok(#[trigger] offers@[k], idx@))
                && (e matches CatalogError::LiveIdOutOfRange(g) ==> exists|k: int|
                    0 <= k < offers@.len() && (#[trigger] offers@[k]).game_id == g
                        && g >= HIGHLIGHT_OFFSET)
                && (e matches CatalogError::OfferForUnknownPackage(p) ==> exists|k: int|
                    0 <= k < offers@.len() && (#[trigger] offers@[k]).streaming_package_id == p
                        && (p >= idx@.len() || idx@[p as int] is None))
                && (e matches CatalogError::LiveIdOutOfRange(g) || e
                    matches CatalogError::OfferForUnknownPackage(p)),
        },
{
    let mut k: usize = 0;
    while k < offers.len()
        invariant
            k <= offers@.len(),
            forall|k2: int| 0 <= k2 < k ==> offer_ok(#[trigger] offers@[k2], idx@),
        decreases offers@.len() - k,
    {
        if offers[k].game_id >= HIGHLIGHT_OFFSET {
            return Some(CatalogError::LiveIdOutOfRange(offers[k].game_id));
        }
        let pid = offers[k].streaming_package_id;
        if pid >= idx.len() {
            return Some(CatalogError::OfferForUnknownPackage(pid));
        }
        if idx[pid].is_none() {
            return Some(CatalogError::OfferForUnknownPackage(pid));
        }
        k = k + 1;
    }
    None
}

fn build_coverage(offers: &Vec<Offer>, idx: &Vec<Option<usize>>) -> (cov: Vec<ItemSet>)
    requires
        forall|k: int| 0 <= k < offers@.len() ==> offer_ok(#[trigger] offers@[k], idx@),
    ensures
        cov@.len() == idx@.len(),
        forall|id: int|
            0 <= id < cov@.len() ==> (#[trigger] cov@[id])@ == offer_items(offers@, id),
{
    let mut cov: Vec<ItemSet> = Vec::new();
    let mut id: usize = 0;
    while id < idx.len()
        invariant
            forall|k: int| 0 <= k < offers@.len() ==> offer_ok(#[trigger] offers@[k], idx@),
            cov@.len() == id,
            id <= idx@.len(),
            forall|id2: int|
                0 <= id2 < id ==> (#[trigger] cov@[id2])@ == offer_items(offers@, id2),
        decreases idx@.len() - id,
    {
        let mut s = ItemSet::new();
        let mut k: usize = 0;
        while k < offers.len()
            invariant
                forall|k2: int| 0 <= k2 < offers@.len() ==> offer_ok(#[trigger] offers@[k2], idx@),
                k <= offers@.len(),
                forall|it: int| #[trigger] s@.contains(it) ==> exists|k2: int|
                    0 <= k2 < k && offer_gives(offers@[k2], id as int, it),
                forall|k2: int, it: int|
                    0 <= k2 < k && #[trigger] offer_gives(offers@[k2], id as int, it)
                        ==> s@.contains(it),
            decreases offers@.len() - k,
        {
            let ghost pres = s@;
            if offers[k].streaming_package_id == id {
                if offers[k].live {
                    s.insert(offers[k].game_id);
                }
                if offers[k].highlights {
                    s.insert(offers[k].game_id + HIGHLIGHT_OFFSET);
                }
            }
            proof {
                assert forall|it: int| #[trigger] s@.contains(it) implies exists|k2: int|
                    0 <= k2 < k + 1 && offer_gives(offers@[k2], id as int, it) by {
                    if pres.contains(it) {
                        let k2 = choose|k2: int|
                            0 <= k2 < k && offer_gives(offers@[k2], id as int, it);
                        assert(0 <= k2 < k + 1 && offer_gives(offers@[k2], id as int, it));
                    } else {
                        assert(offer_gives(offers@[k as int], id as int, it));
                    }
                }
            }
            k = k + 1;
        }
        proof {
            assert(s@ =~= offer_items(offers@, id as int)) by {
                assert forall|it: int| #[trigger] offer_items(offers@, id as int).contains(it)
                    implies s@.contains(it) by {
                    let k2 = choose|k2: int|
                        0 <= k2 < offers@.len() && #[trigger] offer_gives(
                            offers@[k2],
                            id as int,
                            it,
                        );
                    assert(s@.contains(it));
                }
                assert forall|it: int| #[trigger] s@.contains(it) implies offer_items(
                    offers@,
                    id as int,
                ).contains(it) by {
                    let k2 = choose|k2: int|
                        0 <= k2 < offers@.len() && offer_gives(offers@[k2], id as int, it);
                    assert(offer_gives(offers@[k2], id as int, it));
                }
            }
        }
        cov.push(s);
        id = id + 1;
    }
    cov
}

/// Does a monthly-priced package with id `id` cover item `it`?
pub open spec fn monthly_id_covers(
    idx: Seq<Option<usize>>,
    cov: Seq<ItemSet>,
    packages: Seq<Package>,
    id: int,
    it: int,
) -> bool {
    id_covers(idx, cov, id, it) && packages[idx[id]->Some_0 as int].monthly_price_cents is Some
}

fn build_all_covered(cov: &Vec<ItemSet>, idx: &Vec<Option<usize>>) -> (all: ItemSet)
    requires
        cov@.len() == idx@.len(),
    ensures
        all@ == Set::new(|it: int| exists|id: int| id_covers(idx@, cov@, id, it)),
{
    let mut all = ItemSet::new();
    let mut id: usize = 0;
    while id < cov.len()
        invariant
            cov@.len() == idx@.len(),
            id <= cov@.len(),
            forall|it: int| #[trigger] all@.contains(it) ==> exists|id2: int|
                0 <= id2 < id && id_covers(idx@, cov@, id2, it),
            forall|id2: int, it: int|
                0 <= id2 < id && #[trigger] id_covers(idx@, cov@, id2, it) ==> all@.contains(it),
        decreases cov@.len() - id,
    {
        let ghost pre = all@;
        if idx[id].is_some() {
            all.union_with(&cov[id]);
        }
        proof {
            assert forall|it: int| #[trigger] all@.contains(it) implies exists|id2: int|
                0 <= id2 < id + 1 && id_covers(idx@, cov@, id2, it) by {
                if pre.contains(it) {
                    let id2 = choose|id2: int| 0 <= id2 < id && id_covers(idx@, cov@, id2, it);
                    assert(0 <= id2 < id + 1 && id_covers(idx@, cov@, id2, it));
                } else {
                    assert(id_covers(idx@, cov@, id as int, it));
                }
            }
        }
        id = id + 1;
    }
    proof {
        assert(all@ =~= Set::new(|it: int| exists|id: int| id_covers(idx@, cov@, id, it))) by {
            assert forall|it: int| (exists|id2: int| id_covers(idx@, cov@, id2, it)) implies
                all@.contains(it) by {
                let id2 = choose|id2: int| id_covers(idx@, cov@, id2, it);
                assert(0 <= id2 < cov@.len());
                assert(all@.contains(it));
            }
        }
    }
    all
}

fn build_monthly_covered(
    cov: &Vec<ItemSet>,
    idx: &Vec<Option<usize>>,
    packages: &Vec<Package>,
) -> (mon: ItemSet)
    requires
        cov@.len() == idx@.len(),
        forall|id: int|
            0 <= id < idx@.len() && (#[trigger] idx@[id]) is Some ==> idx@[id]->Some_0
                < packages@.len(),
    ensures
        mon@ == Set::new(
            |it: int| exists|id: int| monthly_id_covers(idx@, cov@, packages@, id, it),
        ),
{
    let mut mon = ItemSet::new();
    let mut id: usize = 0;
    while id < cov.len()
        invariant
            cov@.len() == idx@.len(),
            forall|id2: int|
                0 <= id2 < idx@.len() && (#[trigger] idx@[id2]) is Some ==> idx@[id2]->Some_0
                    < packages@.len(),
            id <= cov@.len(),
            forall|it: int| #[trigger] mon@.contains(it) ==> exists|id2: int|
                0 <= id2 < id && monthly_id_covers(idx@, cov@, packages@, id2, it),
            forall|id2: int, it: int|
                0 <= id2 < id && #[trigger] monthly_id_covers(idx@, cov@, packages@, id2, it)
                    ==> mon@.contains(it),
        decreases cov@.len() - id,
    {
        let ghost pre = mon@;
        let is_monthly = match idx[id] {
            Some(j) => packages[j].monthly_price_cents.is_some(),
            None => false,
        };
        if is_monthly {
            mon.union_with(&cov[id]);
        }
        proof {
            assert forall|it: int| #[trigger] mon@.contains(it) implies exists|id2: int|
                0 <= id2 < id + 1 && monthly_id_covers(idx@, cov@, packages@, id2, it) by {
                if pre.contains(it) {
                    let id2 = choose|id2: int|
                        0 <= id2 < id && monthly_id_covers(idx@, cov@, packages@, id2, it);
                    assert(0 <= id2 < id + 1 && monthly_id_covers(idx@, cov@, packages@, id2, it));
                } else {
                    assert(monthly_id_covers(idx@, cov@, packages@, id as int, it));
                }
            }
        }
        id = id + 1;
    }
    proof {
        assert(mon@ =~= Set::new(
            |it: int| exists|id: int| monthly_id_covers(idx@, cov@, packages@, id, it),
        )) by {
            assert forall|it: int|
                (exists|id2: int| monthly_id_covers(idx@, cov@, packages@, id2, it)) implies
                mon@.contains(it) by {
                let id2 = choose|id2: int| monthly_id_covers(idx@, cov@, packages@, id2, it);
                assert(0 <= id2 < cov@.len());
                assert(mon@.contains(it));
            }
        }
    }
    mon
}

fn build_unique(cov: &Vec<ItemSet>, idx: &Vec<Option<usize>>) -> (r: (Vec<Option<usize>>, ItemSet))
    requires
        cov@.len() == idx@.len(),
    ensures
        r.0@.len() == 2 * HIGHLIGHT_OFFSET,
        forall|it: int|
            0 <= it < r.0@.len() && (#[trigger] r.0@[it]) is Some ==> id_covers(
                idx@,
                cov@,
                r.0@[it]->Some_0 as int,
                it,
            ),
        forall|it: int, id2: int|
            0 <= it < r.0@.len() && (#[trigger] r.0@[it]) is Some && (#[trigger] id_covers(
                idx@,
                cov@,
                id2,
                it,
            )) ==> id2 == r.0@[it]->Some_0 as int,
        forall|it: int, id2: int|
            0 <= it < r.0@.len() && (#[trigger] r.0@[it]) is None && (#[trigger] id_covers(
                idx@,
                cov@,
                id2,
                it,
            )) ==> exists|id3: int| id3 != id2 && id_covers(idx@, cov@, id3, it),
        r.1@ == Set::new(|it: int| 0 <= it < r.0@.len() && r.0@[it] is Some),
{
    let mut unique: Vec<Option<usize>> = Vec::new();
    let mut uset = ItemSet::new();
    let mut it: usize = 0;
    while it < 2 * HIGHLIGHT_OFFSET
        invariant
            cov@.len() == idx@.len(),
            unique@.len() == it,
            it <= 2 * HIGHLIGHT_OFFSET,
            forall|it2: int|
                0 <= it2 < it && (#[trigger] unique@[it2]) is Some ==> id_covers(
                    idx@,
                    cov@,
                    unique@[it2]->Some_0 as int,
                    it2,
                ),
            forall|it2: int, id2: int|
                0 <= it2 < it && (#[trigger] unique@[it2]) is Some && (#[trigger] id_covers(
                    idx@,
                    cov@,
                    id2,
                    it2,
                )) ==> id2 == unique@[it2]->Some_0 as int,
            forall|it2: int, id2: int|
                0 <= it2 < it && (#[trigger] unique@[it2]) is None && (#[trigger] id_covers(
                    idx@,
                    cov@,
                    id2,
                    it2,
                )) ==> exists|id3: int| id3 != id2 && id_covers(idx@, cov@, id3, it2),
            uset@ == Set::new(|it2: int| 0 <= it2 < it && unique@[it2] is Some),
        decreases 2 * HIGHLIGHT_OFFSET - it,
    {
        let mut found: Option<usize> = None;
        let mut multiple = false;
        let mut id: usize = 0;
        while id < cov.len()
            invariant
                cov@.len() == idx@.len(),
                id <= cov@.len(),
                !multiple && found is None ==> forall|id2: int|
                    0 <= id2 < id ==> !id_covers(idx@, cov@, id2, it as int),
                found matches Some(f) ==> f < id && id_covers(idx@, cov@, f as int, it as int),
                (!multiple && found is Some) ==> forall|id2: int|
                    0 <= id2 < id && #[trigger] id_covers(idx@, cov@, id2, it as int) ==> id2
                        == found->Some_0 as int,
                multiple ==> exists|a: int, b: int|
                    a != b && id_covers(idx@, cov@, a, it as int) && id_covers(
                        idx@,
                        cov@,
                        b,
                        it as int,
                    ),
                multiple ==> found is Some,
            decreases cov@.len() - id,
        {
            if idx[id].is_some() && cov[id].contains(it) {
                match found {
                    None => { found = Some(id); },
                    Some(f) => {
                        proof {
                            assert(id_covers(idx@, cov@, f as int, it as int));
                            assert(id_covers(idx@, cov@, id as int, it as int));
                            assert(f as int != id as int);
                        }
                        multiple = true;
                    },
                }
            }
            id = id + 1;
        }
        let ghost preu = uset@;
        if !multiple && found.is_some() {
            unique.push(found);
            uset.insert(it);
        } else {
            unique.push(None);
        }
        proof {
            assert(uset@ =~= Set::new(|it2: int| 0 <= it2 < it + 1 && unique@[it2] is Some));
            assert forall|it2: int, id2: int|
                0 <= it2 < it + 1 && (#[trigger] unique@[it2]) is None && (#[trigger] id_covers(
                    idx@,
                    cov@,
                    id2,
                    it2,
                )) implies exists|id3: int| id3 != id2 && id_covers(idx@, cov@, id3, it2) by {
                if it2 == it {
                    let (a, b) = choose|a: int, b: int|
                        a != b && id_covers(idx@, cov@, a, it2) && id_covers(idx@, cov@, b, it2);
                    if id2 == a {
                        assert(b != id2 && id_covers(idx@, cov@, b, it2));
                    } else {
                        assert(a != id2 && id_covers(idx@, cov@, a, it2));
                    }
                }
            }
        }
        it = it + 1;
    }
    (unique, uset)
}

/// Does the name list hold `name`?
pub open spec fn names_has(names: Seq<String>, name: Seq<char>) -> bool {
    exists|k: int| 0 <= k < names.len() && (#[trigger] names[k])@ == name
}

/// Are the names pairwise distinct?
pub open spec fn names_distinct(names: Seq<String>) -> bool {
    forall|k1: int, k2: int|
        0 <= k1 < k2 < names.len() ==> (#[trigger] names[k1])@ != (#[trigger] names[k2])@
}

fn push_name_if_new(names: &mut Vec<String>, name: &String)
    requires
        names_distinct(old(names)@),
    ensures
        names_distinct(final(names)@),
        forall|n: Seq<char>|
            #[trigger] names_has(final(names)@, n) == (names_has(old(names)@, n) || n == name@),
{
    let mut k: usize = 0;
    while k < names.len()
        invariant
            k <= names@.len(),
            names@ == old(names)@,
            names_distinct(names@),
            forall|k2: int| 0 <= k2 < k ==> (#[trigger] names@[k2])@ != name@,
        decreases names@.len() - k,
    {
        if names[k] == *name {
            proof {
                assert forall|n: Seq<char>| #[trigger] names_has(names@, n) == (names_has(
                    old(names)@,
                    n,
                ) || n == name@) by {
                    if n == name@ {
                        assert(names@[k as int]@ == n);
                        assert(names_has(names@, n));
                    }
                }
                assert(names_distinct(names@));
            }
            return ;
        }
        k = k + 1;
    }
    names.push(name.clone());
    proof {
        let ghost pre = old(names)@;
        assert forall|n: Seq<char>| #[trigger] names_has(names@, n) == (names_has(pre, n) || n
            == name@) by {
            if names_has(names@, n) {
                let k2 = choose|k2: int| 0 <= k2 < names@.len() && (#[trigger] names@[k2])@ == n;
                if k2 < pre.len() {
                    assert(pre[k2]@ == n);
                    assert(names_has(pre, n));
                } else {
                    assert(names@[k2]@ == name@);
                }
            }
            if names_has(pre, n) {
                let k2 = choose|k2: int| 0 <= k2 < pre.len() && (#[trigger] pre[k2])@ == n;
                assert(names@[k2]@ == n);
                assert(names_has(names@, n));
            }
            if n == name@ {
                assert(names@[pre.len() as int]@ == n);
                assert(names_has(names@, n));
            }
        }
        assert forall|k1: int, k2: int|
            0 <= k1 < k2 < names@.len() implies (#[trigger] names@[k1])@ != (
        #[trigger] names@[k2])@ by {
            assert(names@[k1] == pre[k1]);
            if k2 == names@.len() - 1 {
                assert(pre[k1]@ != name@);
                assert(names@[k2]@ == name@);
            } else {
                assert(names@[k2] == pre[k2]);
            }
        }
        assert(names_distinct(names@));
    }
}

proof fn lemma_team_items_step(games: Seq<Game>, i: int, name: Seq<char>)
    requires
        0 <= i < games.len(),
    ensures
        team_items(games.take(i + 1), name) == (if games[i].team_home@ == name
            || games[i].team_away@ == name {
            team_items(games.take(i), name).insert(games[i].id as int)
        } else {
            team_items(games.take(i), name)
        }),
{
    let pre = games.take(i);
    let post = games.take(i + 1);
    assert forall|it: int| #[trigger] team_items(post, name).contains(it) implies team_items(
        pre,
        name,
    ).contains(it) || ((games[i].team_home@ == name || games[i].team_away@ == name) && it
        == games[i].id as int) by {
        let i2 = choose|i2: int|
            0 <= i2 < post.len() && (#[trigger] post[i2].id) == it && (post[i2].team_home@ == name
                || post[i2].team_away@ == name);
        if i2 < i {
            assert(pre[i2].id == it && (pre[i2].team_home@ == name || pre[i2].team_away@ == name));
        }
    }
    assert forall|it: int| #[trigger] team_items(pre, name).contains(it) implies team_items(
        post,
        name,
    ).contains(it) by {
        let i2 = choose|i2: int|
            0 <= i2 < pre.len() && (#[trigger] pre[i2].id) == it && (pre[i2].team_home@ == name
                || pre[i2].team_away@ == name);
        assert(post[i2].id == it && (post[i2].team_home@ == name || post[i2].team_away@ == name));
    }
    if games[i].team_home@ == name || games[i].team_away@ == name {
        assert(post[i].id == games[i].id && (post[i].team_home@ == name || post[i].team_away@
            == name));
        assert(team_items(post, name).contains(games[i].id as int));
        assert(team_items(post, name) =~= team_items(pre, name).insert(games[i].id as int));
    } else {
        assert(team_items(post, name) =~= team_items(pre, name));
    }
}

proof fn lemma_tournament_items_step(games: Seq<Game>, i: int, name: Seq<char>)
    requires
        0 <= i < games.len(),
    ensures
        tournament_items(games.take(i + 1), name) == (if games[i].tournament_name@ == name {
            tournament_items(games.take(i), name).insert(games[i].id as int)
        } else {
            tournament_items(games.take(i), name)
        }),
{
    let pre = games.take(i);
    let post = games.take(i + 1);
    assert forall|it: int| #[trigger] tournament_items(post, name).contains(it) implies
        tournament_items(pre, name).contains(it) || (games[i].tournament_name@ == name && it
        == games[i].id as int) by {
        let i2 = choose|i2: int|
            0 <= i2 < post.len() && (#[trigger] post[i2].id) == it && post[i2].tournament_name@
                == name;
        if i2 < i {
            assert(pre[i2].id == it && pre[i2].tournament_name@ == name);
        }
    }
    assert forall|it: int| #[trigger] tournament_items(pre, name).contains(it) implies
        tournament_items(post, name).contains(it) by {
        let i2 = choose|i2: int|
            0 <= i2 < pre.len() && (#[trigger] pre[i2].id) == it && pre[i2].tournament_name@
                == name;
        assert(post[i2].id == it && post[i2].tournament_name@ == name);
    }
    if games[i].tournament_name@ == name {
        assert(post[i].id == games[i].id && post[i].tournament_name@ == name);
        assert(tournament_items(post, name).contains(games[i].id as int));
        assert(tournament_items(post, name) =~= tournament_items(pre, name).insert(
            games[i].id as int,
        ));
    } else {
        assert(tournament_items(post, name) =~= tournament_items(pre, name));
    }
}

fn build_team_table(games: &Vec<Game>) -> (table: Vec<(String, ItemSet)>)
    requires
        forall|i: int| 0 <= i < games@.len() ==> (#[trigger] games@[i]).id < HIGHLIGHT_OFFSET,
    ensures
        team_table_ok(games@, table@),
{
    let mut names: Vec<String> = Vec::new();
    let mut i: usize = 0;
    while i < games.len()
        invariant
            i <= games@.len(),
            names_distinct(names@),
            forall|i2: int|
                0 <= i2 < i ==> names_has(names@, (#[trigger] games@[i2]).team_home@) && names_has(
                    names@,
                    games@[i2].team_away@,
                ),
            forall|k2: int|
                0 <= k2 < names@.len() ==> team_known(games@, (#[trigger] names@[k2])@),
        decreases games@.len() - i,
    {
        let ghost pre_names = names@;
        push_name_if_new(&mut names, &games[i].team_home);
        push_name_if_new(&mut names, &games[i].team_away);
        i = i + 1;
        proof {
            assert forall|k2: int|
                0 <= k2 < names@.len() implies team_known(games@, (#[trigger] names@[k2])@) by {
                let n = names@[k2]@;
                assert(names_has(names@, n));
                if !names_has(pre_names, n) {
                    assert(n == games@[i - 1].team_home@ || n == games@[i - 1].team_away@);
                } else {
                    let k3 = choose|k3: int|
                        0 <= k3 < pre_names.len() && (#[trigger] pre_names[k3])@ == n;
                    assert(team_known(games@, pre_names[k3]@));
                }
            }
        }
    }
    let mut table: Vec<(String, ItemSet)> = Vec::new();
    let mut k: usize = 0;
    while k < names.len()
        invariant
            forall|i2: int| 0 <= i2 < games@.len() ==> (#[trigger] games@[i2]).id
                < HIGHLIGHT_OFFSET,
            k <= names@.len(),
            table@.len() == k,
            names_distinct(names@),
            forall|i2: int|
                0 <= i2 < games@.len() ==> names_has(names@, (#[trigger] games@[i2]).team_home@)
                    && names_has(names@, games@[i2].team_away@),
            forall|k2: int|
                0 <= k2 < names@.len() ==> team_known(games@, (#[trigger] names@[k2])@),
            forall|k2: int|
                0 <= k2 < k ==> (#[trigger] table@[k2]).0@ == names@[k2]@ && table@[k2].1@
                    == team_items(games@, names@[k2]@),
        decreases names@.len() - k,
    {
        let mut s = ItemSet::new();
        let mut i: usize = 0;
        proof {
            assert(s@ =~= team_items(games@.take(0), names@[k as int]@));
        }
        while i < games.len()
            invariant
                forall|i2: int| 0 <= i2 < games@.len() ==> (#[trigger] games@[i2]).id
                    < HIGHLIGHT_OFFSET,
                i <= games@.len(),
                k < names@.len(),
                s@ == team_items(games@.take(i as int), names@[k as int]@),
            decreases games@.len() - i,
        {
            let hit = games[i].team_home == names[k] || games[i].team_away == names[k];
            if hit {
                s.insert(games[i].id);
            }
            proof {
                lemma_team_items_step(games@, i as int, names@[k as int]@);
            }
            i = i + 1;
        }
        proof {
            assert(games@.take(games@.len() as int) =~= games@);
        }
        let nm = names[k].clone();
        table.push((nm, s));
        k = k + 1;
    }
    proof {
        assert forall|i2: int| 0 <= i2 < games@.len() implies table_has(
            table@,
            (#[trigger] games@[i2]).team_home@,
        ) && table_has(table@, games@[i2].team_away@) by {
            let kh = choose|kh: int|
                0 <= kh < names@.len() && (#[trigger] names@[kh])@ == games@[i2].team_home@;
            assert(table@[kh].0@ == games@[i2].team_home@);
            let ka = choose|ka: int|
                0 <= ka < names@.len() && (#[trigger] names@[ka])@ == games@[i2].team_away@;
            assert(table@[ka].0@ == games@[i2].team_away@);
        }
    }
    table
}

fn build_tournament_table(games: &Vec<Game>) -> (table: Vec<(String, ItemSet)>)
    requires
        forall|i: int| 0 <= i < games@.len() ==> (#[trigger] games@[i]).id < HIGHLIGHT_OFFSET,
    ensures
        tournament_table_ok(games@, table@),
{
    let mut names: Vec<String> = Vec::new();
    let mut i: usize = 0;
    while i < games.len()
        invariant
            i <= games@.len(),
            names_distinct(names@),
            forall|i2: int|
                0 <= i2 < i ==> names_has(names@, (#[trigger] games@[i2]).tournament_name@),
            forall|k2: int|
                0 <= k2 < names@.len() ==> tournament_known(games@, (#[trigger] names@[k2])@),
        decreases games@.len() - i,
    {
        let ghost pre_names = names@;
        push_name_if_new(&mut names, &games[i].tournament_name);
        i = i + 1;
        proof {
            assert forall|k2: int|
                0 <= k2 < names@.len() implies tournament_known(
                games@,
                (#[trigger] names@[k2])@,
            ) by {
                let n = names@[k2]@;
                assert(names_has(names@, n));
                if !names_has(pre_names, n) {
                    assert(n == games@[i - 1].tournament_name@);
                } else {
                    let k3 = choose|k3: int|
                        0 <= k3 < pre_names.len() && (#[trigger] pre_names[k3])@ == n;
                    assert(tournament_known(games@, pre_names[k3]@));
                }
            }
        }
    }
    let mut table: Vec<(String, ItemSet)> = Vec::new();
    let mut k: usize = 0;
    while k < names.len()
        invariant
            forall|i2: int| 0 <= i2 < games@.len() ==> (#[trigger] games@[i2]).id
                < HIGHLIGHT_OFFSET,
            k <= names@.len(),
            table@.len() == k,
            names_distinct(names@),
            forall|i2: int|
                0 <= i2 < games@.len() ==> names_has(names@, (#[trigger] games@[i2]).tournament_name@),
            forall|k2: int|
                0 <= k2 < names@.len() ==> tournament_known(games@, (#[trigger] names@[k2])@),
            forall|k2: int|
                0 <= k2 < k ==> (#[trigger] table@[k2]).0@ == names@[k2]@ && table@[k2].1@
                    == tournament_items(games@, names@[k2]@),
        decreases names@.len() - k,
    {
        let mut s = ItemSet::new();
        let mut i: usize = 0;
        proof {
            assert(s@ =~= tournament_items(games@.take(0), names@[k as int]@));
        }
        while i < games.len()
            invariant
                forall|i2: int| 0 <= i2 < games@.len() ==> (#[trigger] games@[i2]).id
                    < HIGHLIGHT_OFFSET,
                i <= games@.len(),
                k < names@.len(),
                s@ == tournament_items(games@.take(i as int), names@[k as int]@),
            decreases games@.len() - i,
        {
            let hit = games[i].tournament_name == names[k];
            if hit {
                s.insert(games[i].id);
            }
            proof {
                lemma_tournament_items_step(games@, i as int, names@[k as int]@);
            }
            i = i + 1;
        }
        proof {
            assert(games@.take(games@.len() as int) =~= games@);
        }
        let nm = names[k].clone();
        table.push((nm, s));
        k = k + 1;
    }
    proof {
        assert forall|i2: int| 0 <= i2 < games@.len() implies table_has(
            table@,
            (#[trigger] games@[i2]).tournament_name@,
        ) by {
            let kh = choose|kh: int|
                0 <= kh < names@.len() && (#[trigger] names@[kh])@ == games@[i2].tournament_name@;
            assert(table@[kh].0@ == games@[i2].tournament_name@);
        }
    }
    table
}

impl Catalog {
    /// Builds the catalog once, validating the records as it goes: a game id
    /// at or above `HIGHLIGHT_OFFSET`, a duplicate package id, a package
    /// without any price field, or an offer naming an unknown package is a
    /// fatal load-time error, never discovered lazily during search.
    #[verifier::rlimit(100)]
    pub fn build(games: Vec<Game>, packages: Vec<Package>, offers: Vec<Offer>) -> (r: Result<
        Catalog,
        CatalogError,
    >)
        ensures
            (r is Ok) == input_ok(games@, packages@, offers@),
            r matches Ok(cat) ==> cat.wf() && cat.games@ == games@ && cat.packages@ == packages@,
            r matches Ok(cat) ==> forall|id: int|
                0 <= id < cat.coverage@.len() ==> (#[trigger] cat.coverage@[id])@ == offer_items(
                    offers@,
                    id,
                ),
            r matches Err(CatalogError::PackageWithoutPrice(d)) ==> exists|j: int|
                0 <= j < packages@.len() && (#[trigger] packages@[j]).id == d
                    && packages@[j].monthly_price_cents is None
                    && packages@[j].monthly_price_yearly_subscription_in_cents is None,
            r matches Err(CatalogError::DuplicatePackageId(d)) ==> exists|j1: int, j2: int|
                0 <= j1 < j2 < packages@.len() && (#[trigger] packages@[j1]).id == (
                #[trigger] packages@[j2]).id && packages@[j1].id == d,
            r matches Err(CatalogError::LiveIdOutOfRange(g)) ==> g >= HIGHLIGHT_OFFSET && ((exists|
                i: int,
            |
                0 <= i < games@.len() && (#[trigger] games@[i]).id == g) || (exists|k: int|
                0 <= k < offers@.len() && (#[trigger] offers@[k]).game_id == g)),
            r matches Err(CatalogError::OfferForUnknownPackage(p)) ==> (exists|k: int|
                0 <= k < offers@.len() && (#[trigger] offers@[k]).streaming_package_id == p)
                && (forall|j: int| 0 <= j < packages@.len() ==> (#[trigger] packages@[j]).id != p),
    {
        if packages.len() >= MAX_PACKAGES {
            return Err(CatalogError::TooManyPackages);
        }
        if let Some(g) = check_games(&games) {
            return Err(CatalogError::LiveIdOutOfRange(g));
        }
        let idx = match build_pkg_index(&packages) {
            Ok(idx) => idx,
            Err(e) => {
                return Err(e);
            },
        };
        if let Some(d) = check_prices(&packages) {
            return Err(CatalogError::PackageWithoutPrice(d));
        }
        if let Some(e) = check_offers(&offers, &idx) {
            proof {
                let bad = choose|k: int|
                    0 <= k < offers@.len() && !offer_ok(#[trigger] offers@[k], idx@);
                if offers@[bad].game_id < HIGHLIGHT_OFFSET {
                    let p = offers@[bad].streaming_package_id;
                    if input_ok(games@, packages@, offers@) {
                        let j = choose|j: int|
                            0 <= j < packages@.len() && (#[trigger] packages@[j]).id == p;
                        assert(idx@[p as int] == Some(j as usize));
                        assert(false);
                    }
                }
            }
            proof {
                if e is OfferForUnknownPackage {
                    let p = e->OfferForUnknownPackage_0;
                    assert forall|j: int|
                        0 <= j < packages@.len() implies (#[trigger] packages@[j]).id != p by {
                        if packages@[j].id == p {
                            assert(idx@[p as int] == Some(j as usize));
                        }
                    }
                }
            }
            return Err(e);
        }
        let cov = build_coverage(&offers, &idx);
        let all_covered = build_all_covered(&cov, &idx);
        let monthly_covered = build_monthly_covered(&cov, &idx, &packages);
        let uniq = build_unique(&cov, &idx);
        let teams = build_team_table(&games);
        let tournaments = build_tournament_table(&games);
        proof {
            assert(input_ok(games@, packages@, offers@)) by {
                assert forall|j1: int, j2: int|
                    0 <= j1 < j2 < packages@.len() implies (#[trigger] packages@[j1]).id != (
                #[trigger] packages@[j2]).id by {
                    if packages@[j1].id == packages@[j2].id {
                        assert(idx@[packages@[j1].id as int] == Some(j1 as usize));
                        assert(idx@[packages@[j2].id as int] == Some(j2 as usize));
                    }
                }
                assert forall|j: int|
                    0 <= j < packages@.len() implies (#[trigger] packages@[j]).id
                    < MAX_PACKAGES by {
                    assert(packages@[j].id < idx@.len());
                }
                assert forall|k: int|
                    0 <= k < offers@.len() implies (#[trigger] offers@[k]).game_id
                    < HIGHLIGHT_OFFSET && (exists|j: int|
                    0 <= j < packages@.len() && (#[trigger] packages@[j]).id
                        == offers@[k].streaming_package_id) by {
                    assert(offer_ok(offers@[k], idx@));
                    let j = idx@[offers@[k].streaming_package_id as int]->Some_0;
                    assert(packages@[j as int].id == offers@[k].streaming_package_id);
                }
            }
        }
        let cat = Catalog {
            games,
            packages,
            coverage: cov,
            pkg_of_id: idx,
            teams,
            tournaments,
            unique_pkg: uniq.0,
            uniquely_covered: uniq.1,
            all_covered,
            monthly_covered,
        };
        proof {
            lemma_build_wf(cat, offers@);
        }
        Ok(cat)
    }
}

proof fn lemma_build_wf(cat: Catalog, offers: Seq<Offer>)
    requires
        cat.coverage@.len() == cat.pkg_of_id@.len(),
        cat.packages@.len() < MAX_PACKAGES,
        forall|j: int|
            0 <= j < cat.packages@.len() ==> (#[trigger] cat.packages@[j]).id
                < cat.pkg_of_id@.len() && cat.pkg_of_id@[cat.packages@[j].id as int] == Some(
                j as usize,
            ),
        forall|id: int|
            0 <= id < cat.pkg_of_id@.len() && (#[trigger] cat.pkg_of_id@[id]) is Some
                ==> cat.pkg_of_id@[id]->Some_0 < cat.packages@.len()
                && cat.packages@[cat.pkg_of_id@[id]->Some_0 as int].id == id,
        forall|j: int|
            0 <= j < cat.packages@.len() ==> (#[trigger] cat.packages@[j]).monthly_price_cents
                is Some || cat.packages@[j].monthly_price_yearly_subscription_in_cents is Some,
        forall|i: int|
            0 <= i < cat.games@.len() ==> (#[trigger] cat.games@[i]).id < HIGHLIGHT_OFFSET,
        forall|k: int| 0 <= k < offers.len() ==> offer_ok(#[trigger] offers[k], cat.pkg_of_id@),
        forall|id: int|
            0 <= id < cat.coverage@.len() ==> (#[trigger] cat.coverage@[id])@ == offer_items(
                offers,
                id,
            ),
        cat.all_covered@ == Set::new(
            |it: int| exists|id: int| id_covers(cat.pkg_of_id@, cat.coverage@, id, it),
        ),
        cat.monthly_covered@ == Set::new(
            |it: int|
                exists|id: int|
                    monthly_id_covers(cat.pkg_of_id@, cat.coverage@, cat.packages@, id, it),
        ),
        cat.unique_pkg@.len() == 2 * HIGHLIGHT_OFFSET,
        forall|it: int|
            0 <= it < cat.unique_pkg@.len() && (#[trigger] cat.unique_pkg@[it]) is Some
                ==> id_covers(
                cat.pkg_of_id@,
                cat.coverage@,
                cat.unique_pkg@[it]->Some_0 as int,
                it,
            ),
        forall|it: int, id2: int|
            0 <= it < cat.unique_pkg@.len() && (#[trigger] cat.unique_pkg@[it]) is Some && (
            #[trigger] id_covers(cat.pkg_of_id@, cat.coverage@, id2, it)) ==> id2
                == cat.unique_pkg@[it]->Some_0 as int,
        forall|it: int, id2: int|
            0 <= it < cat.unique_pkg@.len() && (#[trigger] cat.unique_pkg@[it]) is None && (
            #[trigger] id_covers(cat.pkg_of_id@, cat.coverage@, id2, it)) ==> exists|id3: int|
                id3 != id2 && id_covers(cat.pkg_of_id@, cat.coverage@, id3, it),
        cat.uniquely_covered@ == Set::new(
            |it: int| 0 <= it < cat.unique_pkg@.len() && cat.unique_pkg@[it] is Some,
        ),
        team_table_ok(cat.games@, cat.teams@),
        tournament_table_ok(cat.games@, cat.tournaments@),
    ensures
        cat.wf(),
{
    assert forall|id: int|
        0 <= id < cat.coverage@.len() && cat.pkg_of_id@[id] is None implies (
    #[trigger] cat.coverage@[id])@ == Set::<int>::empty() by {
        assert(cat.coverage@[id]@ == offer_items(offers, id));
        assert forall|it: int| !(#[trigger] offer_items(offers, id).contains(it)) by {
            if offer_items(offers, id).contains(it) {
                let k = choose|k: int|
                    0 <= k < offers.len() && #[trigger] offer_gives(offers[k], id, it);
                assert(offer_ok(offers[k], cat.pkg_of_id@));
                assert(false);
            }
        }
        assert(cat.coverage@[id]@ =~= Set::<int>::empty());
    }
    assert forall|id: int, it: int| #[trigger] cat.covers(id, it) implies 0 <= it < 2
        * HIGHLIGHT_OFFSET by {
        assert(cat.coverage@[id]@ == offer_items(offers, id));
        let k = choose|k: int| 0 <= k < offers.len() && #[trigger] offer_gives(offers[k], id, it);
        assert(offer_ok(offers[k], cat.pkg_of_id@));
    }
    assert forall|it: int| #[trigger] cat.all_covered@.contains(it) implies exists|id: int|
        cat.covers(id, it) by {
        let id = choose|id: int| id_covers(cat.pkg_of_id@, cat.coverage@, id, it);
        assert(cat.covers(id, it));
    }
    assert forall|id: int, it: int| #[trigger] cat.covers(id, it) implies
        cat.all_covered@.contains(it) by {
        assert(id_covers(cat.pkg_of_id@, cat.coverage@, id, it));
    }
    assert forall|it: int| #[trigger] cat.monthly_covered@.contains(it) implies exists|id: int|
        cat.mode_eligible(id, true) && #[trigger] cat.covers(id, it) by {
        let id = choose|id: int|
            monthly_id_covers(cat.pkg_of_id@, cat.coverage@, cat.packages@, id, it);
        assert(cat.mode_eligible(id, true) && cat.covers(id, it));
    }
    assert forall|id: int, it: int|
        cat.mode_eligible(id, true) && #[trigger] cat.covers(id, it) implies
        cat.monthly_covered@.contains(it) by {
        assert(monthly_id_covers(cat.pkg_of_id@, cat.coverage@, cat.packages@, id, it));
    }
    assert(forall|id: int|
        cat.valid_pkg(id) ==> (#[trigger] cat.pkg_of_id@[id])->Some_0 < cat.packages@.len()
            && cat.packages@[cat.pkg_of_id@[id]->Some_0 as int].id == id);
    assert(forall|it: int| #[trigger] cat.uniquely_covered@.contains(it) ==> 0 <= it
        < cat.unique_pkg@.len() && cat.unique_pkg@[it] is Some);
    assert(forall|it: int|
        0 <= it < cat.unique_pkg@.len() && (#[trigger] cat.unique_pkg@[it]) is Some
            ==> cat.uniquely_covered@.contains(it));
    assert(forall|it: int|
        0 <= it < cat.unique_pkg@.len() && (#[trigger] cat.unique_pkg@[it]) is Some
            ==> cat.covers(cat.unique_pkg@[it]->Some_0 as int, it));
    assert(forall|it: int, id2: int|
        0 <= it < cat.unique_pkg@.len() && (#[trigger] cat.unique_pkg@[it]) is Some && (
        #[trigger] cat.covers(id2, it)) ==> id2 == cat.unique_pkg@[it]->Some_0 as int);
    assert forall|it: int, id2: int|
        0 <= it < cat.unique_pkg@.len() && (#[trigger] cat.unique_pkg@[it]) is None && (
        #[trigger] cat.covers(id2, it)) implies exists|id3: int|
        id3 != id2 && cat.covers(id3, it) by {
        assert(id_covers(cat.pkg_of_id@, cat.coverage@, id2, it));
        let id3 = choose|id3: int|
            id3 != id2 && id_covers(cat.pkg_of_id@, cat.coverage@, id3, it);
        assert(cat.covers(id3, it));
    }
    assert(cat.table_wf_teams());
    assert(cat.table_wf_tournaments());
}

} // verus!
