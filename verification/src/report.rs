//! The small verified pieces a report front end consumes: per-package
//! coverage restricted to the required items, and the three-valued
//! coverage grade of an item collection.

use vstd::prelude::*;
use crate::catalog::Catalog;
use crate::itemset::ItemSet;
use crate::models::{Coverage, Row};
use crate::solver::restricted_cover;

verus! {

/// Grades how far `covered` spans `needed`: no common item, all of
/// `needed`, or something in between.  An empty `needed` grades as `NONE`.
pub fn coverage_for_items(needed: &ItemSet, covered: &ItemSet) -> (c: Coverage)
    ensures
        (c == Coverage::NONE) == (needed@.intersect(covered@) == Set::<int>::empty()),
        (c == Coverage::FULL) == (needed@.intersect(covered@) != Set::<int>::empty()
            && needed@.subset_of(covered@)),
        (c == Coverage::PARTIAL) == (needed@.intersect(covered@) != Set::<int>::empty()
            && !needed@.subset_of(covered@)),
{
    let mut inter = needed.clone();
    inter.intersect_with(covered);
    if inter.is_empty() {
        Coverage::NONE
    } else if needed.is_subset(covered) {
        Coverage::FULL
    } else {
        Coverage::PARTIAL
    }
}

/// The coverage of one package cut down to the required items.
pub fn restricted_coverage(cat: &Catalog, pkg_id: usize, required: &ItemSet) -> (r: ItemSet)
    requires
        cat.wf(),
        cat.valid_pkg(pkg_id as int),
    ensures
        r@ == restricted_cover(*cat, pkg_id as int, required@),
{
    let mut r = cat.coverage[pkg_id].clone();
    r.intersect_with(required);
    proof {
        assert(r@ =~= restricted_cover(*cat, pkg_id as int, required@));
    }
    r
}

impl Row {
    /// A report row without sub-rows.
    pub fn leaf(
        key: String,
        provider_coverage: Vec<(String, Coverage)>,
        provider_coverage_highlights: Vec<(String, Coverage)>,
    ) -> (r: Row)
        ensures
            r.key == key,
            r.provider_coverage == provider_coverage,
            r.provider_coverage_highlights == provider_coverage_highlights,
            r.sub_rows is None,
    {
        Row { key, provider_coverage, provider_coverage_highlights, sub_rows: None }
    }

    /// A report row with sub-rows.
    pub fn group(
        key: String,
        provider_coverage: Vec<(String, Coverage)>,
        provider_coverage_highlights: Vec<(String, Coverage)>,
        sub_rows: Vec<Row>,
    ) -> (r: Row)
        ensures
            r.key == key,
            r.provider_coverage == provider_coverage,
            r.provider_coverage_highlights == provider_coverage_highlights,
            r.sub_rows == Some(sub_rows),
    {
        Row { key, provider_coverage, provider_coverage_highlights, sub_rows: Some(sub_rows) }
    }
}

} // verus!