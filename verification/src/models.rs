//! Plain data carried through the solver: catalog records, requests,
//! selections, and the rows handed to a report front end.

use vstd::prelude::*;
use crate::itemset::ItemSet;

verus! {

/// Offset that separates live item ids from their highlight variants.
/// It is chosen above every live id, so the two sub-ranges never collide
/// and the variant of an id is decided by a single comparison.
pub const HIGHLIGHT_OFFSET: usize = 8876;

/// One watchable event.  Its id is the live item id; the highlight variant
/// of the same event lives at `id + HIGHLIGHT_OFFSET`.
pub struct Game {
    pub id: usize,
    pub team_home: String,
    pub team_away: String,
    pub starts_at: String,
    pub tournament_name: String,
}

/// One coverage fact: a package supplies a game live and/or as highlights.
pub struct Offer {
    pub game_id: usize,
    pub streaming_package_id: usize,
    pub live: bool,
    pub highlights: bool,
}

/// A purchasable subscription package.  At least one of the two price
/// fields must be present for the package to be part of a valid catalog.
pub struct Package {
    pub id: usize,
    pub name: String,
    pub monthly_price_cents: Option<u32>,
    pub monthly_price_yearly_subscription_in_cents: Option<u32>,
}

/// How far a package covers a collection of items.
#[allow(non_camel_case_types)]
#[derive(PartialEq, Eq, Structural, Clone, Copy, Debug)]
pub enum Coverage {
    FULL,
    PARTIAL,
    NONE,
}

/// One display row of a coverage report: per-package coverage of the live
/// and the highlight variants of a keyed collection of items.
pub struct Row {
    pub key: String,
    pub provider_coverage: Vec<(String, Coverage)>,
    pub provider_coverage_highlights: Vec<(String, Coverage)>,
    pub sub_rows: Option<Vec<Row>>,
}

/// A request for the cheapest covering combination of packages.
pub struct SolveRequest {
    pub items: Vec<usize>,
    pub teams: Vec<String>,
    pub tournaments: Vec<String>,
    pub live: bool,
    pub highlights: bool,
    pub only_monthly_billing: bool,
    pub all_items: bool,
}

/// Why a request was turned down.
#[derive(Debug)]
pub enum SolveError {
    /// Neither the live nor the highlight variant was requested.
    NoVariantRequested,
    /// A requested team name is absent from the catalog.
    TeamNotFound(String),
    /// A requested tournament name is absent from the catalog.
    TournamentNotFound(String),
    /// The search exhausted its queue without covering the required set.
    NoSolution,
}

/// Why a catalog could not be built.
#[derive(Debug)]
pub enum CatalogError {
    /// A game id lies at or above `HIGHLIGHT_OFFSET`.
    LiveIdOutOfRange(usize),
    /// Two packages share one id.
    DuplicatePackageId(usize),
    /// A package carries neither price field.
    PackageWithoutPrice(usize),
    /// An offer names a package id that no package has.
    OfferForUnknownPackage(usize),
    /// More packages than the price accumulator is sized for.
    TooManyPackages,
}

/// The answer to a request: the resolved required set and the selected
/// package ids, force-preselected packages first.
pub struct Solution {
    pub required: ItemSet,
    pub packages: Vec<usize>,
}

/// Decodes the textual boolean flags of requests and catalog records:
/// "1" is true, "0" is false, anything else is rejected.
pub fn parse_binary_flag(s: &str) -> (r: Option<bool>)
    ensures
        (r == Some(true)) == (s@ == seq!['1']),
        (r == Some(false)) == (s@ == seq!['0']),
        (r is None) == (s@ != seq!['1'] && s@ != seq!['0']),
{
    proof {
        vstd::string::axiom_spec_iter(s);
    }
    let mut it = s.chars();
    let first = it.next();
    let second = it.next();
    match (first, second) {
        (Some(c), None) => {
            if c == '1' {
                proof {
                    assert(s@ =~= seq!['1']);
                }
                Some(true)
            } else if c == '0' {
                proof {
                    assert(s@ =~= seq!['0']);
                }
                Some(false)
            } else {
                None
            }
        },
        _ => None,
    }
}

} // verus!
