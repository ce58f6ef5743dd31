//! Turns a request into the bit-vector of items that must be covered.
//!
//! Explicit item ids, the items of each named team and of each named
//! tournament (or the whole live universe when everything is asked for) are
//! unioned, the highlight variant is added or substituted per the request
//! flags, and the result is kept to the coverable universe of the active
//! billing mode.

use vstd::prelude::*;
use crate::catalog::{team_items, team_known, tournament_items, tournament_known, Catalog};
use crate::itemset::ItemSet;
use crate::models::{SolveError, SolveRequest, HIGHLIGHT_OFFSET};

verus! {

/// The items a request names directly or through teams and tournaments.
pub open spec fn base_items(cat: Catalog, req: SolveRequest) -> Set<int> {
    if req.all_items {
        Set::new(
            |it: int|
                exists|i: int|
                    0 <= i < cat.games@.len() && (#[trigger] cat.games@[i]).id == it,
        )
    } else {
        Set::new(
            |it: int|
                (exists|k: int| 0 <= k < req.items@.len() && (#[trigger] req.items@[k]) == it)
                    || (exists|k: int|
                    0 <= k < req.teams@.len() && team_items(
                        cat.games@,
                        (#[trigger] req.teams@[k])@,
                    ).contains(it)) || (exists|k: int|
                    0 <= k < req.tournaments@.len() && tournament_items(
                        cat.games@,
                        (#[trigger] req.tournaments@[k])@,
                    ).contains(it)),
        )
    }
}

/// The requested variants of a base set: the highlight variant added to it,
/// substituted for it, or the base set alone.
pub open spec fn variant_items(s: Set<int>, live: bool, highlights: bool) -> Set<int> {
    if highlights {
        if live {
            s.union(Set::new(|it: int| s.contains(it - HIGHLIGHT_OFFSET)))
        } else {
            Set::new(|it: int| s.contains(it - HIGHLIGHT_OFFSET))
        }
    } else {
        s
    }
}

/// The resolved required set of a request.
pub open spec fn resolved_items(cat: Catalog, req: SolveRequest) -> Set<int> {
    variant_items(base_items(cat, req), req.live, req.highlights).intersect(
        cat.universe(req.only_monthly_billing),
    )
}

/// Resolves a request to its required item set.  Rejects a request asking
/// for neither variant, and rejects the first unknown team or tournament
/// name outright rather than silently skipping it.
pub fn resolve_required(cat: &Catalog, req: &SolveRequest) -> (r: Result<ItemSet, SolveError>)
    requires
        cat.wf(),
        forall|k: int|
            0 <= k < req.items@.len() ==> (#[trigger] req.items@[k]) + HIGHLIGHT_OFFSET
                < usize::MAX,
    ensures
        match r {
            Ok(s) => (req.live || req.highlights) && s@ == resolved_items(*cat, *req) && (forall|
                k: int,
            |
                0 <= k < req.teams@.len() ==> team_known(
                    cat.games@,
                    (#[trigger] req.teams@[k])@,
                )) && (forall|k: int|
                0 <= k < req.tournaments@.len() ==> tournament_known(
                    cat.games@,
                    (#[trigger] req.tournaments@[k])@,
                )),
            Err(SolveError::NoVariantRequested) => !req.live && !req.highlights,
            Err(SolveError::TeamNotFound(t)) => (req.live || req.highlights) && exists|k: int|
                0 <= k < req.teams@.len() && t@ == (#[trigger] req.teams@[k])@ && !team_known(
                    cat.games@,
                    req.teams@[k]@,
                ) && (forall|k2: int|
                    0 <= k2 < k ==> team_known(cat.games@, (#[trigger] req.teams@[k2])@)),
            Err(SolveError::TournamentNotFound(t)) => (req.live || req.highlights) && (forall|
                k: int,
            |
                0 <= k < req.teams@.len() ==> team_known(
                    cat.games@,
                    (#[trigger] req.teams@[k])@,
                )) && exists|k: int|
                0 <= k < req.tournaments@.len() && t@ == (#[trigger] req.tournaments@[k])@
                    && !tournament_known(cat.games@, req.tournaments@[k]@) && (forall|k2: int|
                    0 <= k2 < k ==> tournament_known(
                        cat.games@,
                        (#[trigger] req.tournaments@[k2])@,
                    )),
            Err(SolveError::NoSolution) => false,
        },
{
    if !req.live && !req.highlights {
        return Err(SolveError::NoVariantRequested);
    }
    let mut base = ItemSet::new();
    if req.all_items {
        let mut i: usize = 0;
        while i < cat.games.len()
            invariant
                cat.wf(),
                i <= cat.games@.len(),
                forall|it: int| #[trigger] base@.contains(it) ==> exists|i2: int|
                    0 <= i2 < i && (#[trigger] cat.games@[i2]).id == it,
                forall|i2: int|
                    0 <= i2 < i ==> base@.contains((#[trigger] cat.games@[i2]).id as int),
            decreases cat.games@.len() - i,
        {
            let ghost pre = base@;
            base.insert(cat.games[i].id);
            proof {
                assert forall|it: int| #[trigger] base@.contains(it) implies exists|i2: int|
                    0 <= i2 < i + 1 && (#[trigger] cat.games@[i2]).id == it by {
                    if pre.contains(it) {
                        let i2 = choose|i2: int|
                            0 <= i2 < i && (#[trigger] cat.games@[i2]).id == it;
                        assert(0 <= i2 < i + 1 && cat.games@[i2].id == it);
                    } else {
                        assert(cat.games@[i as int].id == it);
                    }
                }
            }
            i = i + 1;
        }
    } else {
        let mut k: usize = 0;
        while k < req.items.len()
            invariant
                k <= req.items@.len(),
                forall|k2: int|
                    0 <= k2 < req.items@.len() ==> (#[trigger] req.items@[k2])
                        + HIGHLIGHT_OFFSET < usize::MAX,
                forall|it: int| #[trigger] base@.contains(it) ==> exists|k2: int|
                    0 <= k2 < k && (#[trigger] req.items@[k2]) == it,
                forall|k2: int| 0 <= k2 < k ==> base@.contains((#[trigger] req.items@[k2]) as int),
            decreases req.items@.len() - k,
        {
            let ghost pre = base@;
            base.insert(req.items[k]);
            proof {
                assert forall|it: int| #[trigger] base@.contains(it) implies exists|k2: int|
                    0 <= k2 < k + 1 && (#[trigger] req.items@[k2]) == it by {
                    if pre.contains(it) {
                        let k2 = choose|k2: int| 0 <= k2 < k && (#[trigger] req.items@[k2]) == it;
                        assert(0 <= k2 < k + 1 && req.items@[k2] == it);
                    } else {
                        assert(req.items@[k as int] == it);
                    }
                }
            }
            k = k + 1;
        }
    }
    let ghost explicit = base@;
    {
        let mut k: usize = 0;
        while k < req.teams.len()
            invariant
                req.live || req.highlights,
                cat.wf(),
                k <= req.teams@.len(),
                forall|k2: int|
                    0 <= k2 < k ==> team_known(cat.games@, (#[trigger] req.teams@[k2])@),
                forall|it: int| #[trigger] base@.contains(it) ==> explicit.contains(it) || exists|
                    k2: int,
                |
                    0 <= k2 < k && team_items(
                        cat.games@,
                        (#[trigger] req.teams@[k2])@,
                    ).contains(it),
                forall|it: int| explicit.contains(it) ==> #[trigger] base@.contains(it),
                forall|k2: int, it: int|
                    0 <= k2 < k && #[trigger] team_items(
                        cat.games@,
                        (#[trigger] req.teams@[k2])@,
                    ).contains(it) ==> base@.contains(it),
            decreases req.teams@.len() - k,
        {
            let ghost pre = base@;
            match cat.lookup_team(&req.teams[k]) {
                Some(s) => {
                    base.union_with(s);
                },
                None => {
                    let t = req.teams[k].clone();
                    proof {
                        assert(!team_known(cat.games@, req.teams@[k as int]@)) by {
                            if team_known(cat.games@, req.teams@[k as int]@) {
                                let i = choose|i: int|
                                    0 <= i < cat.games@.len() && ((#[trigger] cat.games@[i]).team_home@
                                        == req.teams@[k as int]@ || cat.games@[i].team_away@
                                        == req.teams@[k as int]@);
                                assert(false);
                            }
                        }
                        assert(t@ == req.teams@[k as int]@ && !team_known(
                            cat.games@,
                            req.teams@[k as int]@,
                        ) && (forall|k2: int|
                            0 <= k2 < k ==> team_known(cat.games@, (#[trigger] req.teams@[k2])@)));
                    }
                    return Err(SolveError::TeamNotFound(t));
                },
            }
            proof {
                assert forall|it: int| #[trigger] base@.contains(it) implies explicit.contains(it)
                    || exists|k2: int|
                    0 <= k2 < k + 1 && team_items(
                        cat.games@,
                        (#[trigger] req.teams@[k2])@,
                    ).contains(it) by {
                    if pre.contains(it) {
                        if !explicit.contains(it) {
                            let k2 = choose|k2: int|
                                0 <= k2 < k && team_items(
                                    cat.games@,
                                    (#[trigger] req.teams@[k2])@,
                                ).contains(it);
                            assert(0 <= k2 < k + 1 && team_items(
                                cat.games@,
                                req.teams@[k2]@,
                            ).contains(it));
                        }
                    } else {
                        assert(team_items(cat.games@, req.teams@[k as int]@).contains(it));
                    }
                }
            }
            k = k + 1;
        }
        let ghost with_teams = base@;
        let mut k: usize = 0;
        while k < req.tournaments.len()
            invariant
                req.live || req.highlights,
                cat.wf(),
                k <= req.tournaments@.len(),
                forall|k2: int|
                    0 <= k2 < req.teams@.len() ==> team_known(
                        cat.games@,
                        (#[trigger] req.teams@[k2])@,
                    ),
                forall|k2: int|
                    0 <= k2 < k ==> tournament_known(cat.games@, (#[trigger] req.tournaments@[k2])@),
                forall|it: int| #[trigger] base@.contains(it) ==> with_teams.contains(it)
                    || exists|k2: int|
                    0 <= k2 < k && tournament_items(
                        cat.games@,
                        (#[trigger] req.tournaments@[k2])@,
                    ).contains(it),
                forall|it: int| with_teams.contains(it) ==> #[trigger] base@.contains(it),
                forall|k2: int, it: int|
                    0 <= k2 < k && #[trigger] tournament_items(
                        cat.games@,
                        (#[trigger] req.tournaments@[k2])@,
                    ).contains(it) ==> base@.contains(it),
            decreases req.tournaments@.len() - k,
        {
            let ghost pre = base@;
            match cat.lookup_tournament(&req.tournaments[k]) {
                Some(s) => {
                    base.union_with(s);
                },
                None => {
                    let t = req.tournaments[k].clone();
                    proof {
                        assert(!tournament_known(cat.games@, req.tournaments@[k as int]@)) by {
                            if tournament_known(cat.games@, req.tournaments@[k as int]@) {
                                let i = choose|i: int|
                                    0 <= i < cat.games@.len() && (#[trigger] cat.games@[i]).tournament_name@
                                        == req.tournaments@[k as int]@;
                                assert(false);
                            }
                        }
                        assert(t@ == req.tournaments@[k as int]@ && !tournament_known(
                            cat.games@,
                            req.tournaments@[k as int]@,
                        ) && (forall|k2: int|
                            0 <= k2 < k ==> tournament_known(
                                cat.games@,
                                (#[trigger] req.tournaments@[k2])@,
                            )));
                    }
                    return Err(SolveError::TournamentNotFound(t));
                },
            }
            proof {
                assert forall|it: int| #[trigger] base@.contains(it) implies with_teams.contains(
                    it,
                ) || exists|k2: int|
                    0 <= k2 < k + 1 && tournament_items(
                        cat.games@,
                        (#[trigger] req.tournaments@[k2])@,
                    ).contains(it) by {
                    if pre.contains(it) {
                        if !with_teams.contains(it) {
                            let k2 = choose|k2: int|
                                0 <= k2 < k && tournament_items(
                                    cat.games@,
                                    (#[trigger] req.tournaments@[k2])@,
                                ).contains(it);
                            assert(0 <= k2 < k + 1 && tournament_items(
                                cat.games@,
                                req.tournaments@[k2]@,
                            ).contains(it));
                        }
                    } else {
                        assert(tournament_items(
                            cat.games@,
                            req.tournaments@[k as int]@,
                        ).contains(it));
                    }
                }
            }
            k = k + 1;
        }
        proof {
            assert(base@ =~= base_items(*cat, *req)) by {
                assert forall|it: int| base_items(*cat, *req).contains(it) implies base@.contains(
                    it,
                ) by {
                    if req.all_items {
                        let i2 = choose|i2: int|
                            0 <= i2 < cat.games@.len() && (#[trigger] cat.games@[i2]).id == it;
                        assert(explicit.contains(it));
                    } else {
                        if exists|k2: int|
                            0 <= k2 < req.items@.len() && (#[trigger] req.items@[k2]) == it {
                            let k2 = choose|k2: int|
                                0 <= k2 < req.items@.len() && (#[trigger] req.items@[k2]) == it;
                            assert(explicit.contains(it));
                        } else if exists|k2: int|
                            0 <= k2 < req.teams@.len() && team_items(
                                cat.games@,
                                (#[trigger] req.teams@[k2])@,
                            ).contains(it) {
                            let k2 = choose|k2: int|
                                0 <= k2 < req.teams@.len() && team_items(
                                    cat.games@,
                                    (#[trigger] req.teams@[k2])@,
                                ).contains(it);
                            assert(base@.contains(it));
                        } else {
                            let k2 = choose|k2: int|
                                0 <= k2 < req.tournaments@.len() && tournament_items(
                                    cat.games@,
                                    (#[trigger] req.tournaments@[k2])@,
                                ).contains(it);
                            assert(base@.contains(it));
                        }
                    }
                }
                assert forall|it: int| #[trigger] base@.contains(it) implies base_items(
                    *cat,
                    *req,
                ).contains(it) by {
                    if req.all_items {
                        if explicit.contains(it) {
                            let i2 = choose|i2: int|
                                0 <= i2 < cat.games@.len() && (#[trigger] cat.games@[i2]).id == it;
                            assert(base_items(*cat, *req).contains(it));
                        } else if exists|k2: int|
                            0 <= k2 < req.teams@.len() && team_items(
                                cat.games@,
                                (#[trigger] req.teams@[k2])@,
                            ).contains(it) {
                            let k2 = choose|k2: int|
                                0 <= k2 < req.teams@.len() && team_items(
                                    cat.games@,
                                    (#[trigger] req.teams@[k2])@,
                                ).contains(it);
                            let i2 = choose|i2: int|
                                0 <= i2 < cat.games@.len() && (#[trigger] cat.games@[i2].id) == it
                                    && (cat.games@[i2].team_home@ == req.teams@[k2]@
                                    || cat.games@[i2].team_away@ == req.teams@[k2]@);
                            assert(base_items(*cat, *req).contains(it));
                        } else {
                            let k2 = choose|k2: int|
                                0 <= k2 < req.tournaments@.len() && tournament_items(
                                    cat.games@,
                                    (#[trigger] req.tournaments@[k2])@,
                                ).contains(it);
                            let i2 = choose|i2: int|
                                0 <= i2 < cat.games@.len() && (#[trigger] cat.games@[i2].id) == it
                                    && cat.games@[i2].tournament_name@ == req.tournaments@[k2]@;
                            assert(base_items(*cat, *req).contains(it));
                        }
                    } else {
                        if explicit.contains(it) {
                            let k2 = choose|k2: int|
                                0 <= k2 < req.items@.len() && (#[trigger] req.items@[k2]) == it;
                            assert(base_items(*cat, *req).contains(it));
                        } else if exists|k2: int|
                            0 <= k2 < req.teams@.len() && team_items(
                                cat.games@,
                                (#[trigger] req.teams@[k2])@,
                            ).contains(it) {
                            let k2 = choose|k2: int|
                                0 <= k2 < req.teams@.len() && team_items(
                                    cat.games@,
                                    (#[trigger] req.teams@[k2])@,
                                ).contains(it);
                            assert(base_items(*cat, *req).contains(it));
                        } else {
                            let k2 = choose|k2: int|
                                0 <= k2 < req.tournaments@.len() && tournament_items(
                                    cat.games@,
                                    (#[trigger] req.tournaments@[k2])@,
                                ).contains(it);
                            assert(base_items(*cat, *req).contains(it));
                        }
                    }
                }
            }
        }
    }
    proof {
        assert forall|it: int| #[trigger] base@.contains(it) implies it + HIGHLIGHT_OFFSET
            < usize::MAX by {
            assert(base_items(*cat, *req).contains(it));
            if req.all_items {
                let i2 = choose|i2: int|
                    0 <= i2 < cat.games@.len() && (#[trigger] cat.games@[i2]).id == it;
            } else {
                if exists|k2: int|
                    0 <= k2 < req.items@.len() && (#[trigger] req.items@[k2]) == it {
                    let k2 = choose|k2: int|
                        0 <= k2 < req.items@.len() && (#[trigger] req.items@[k2]) == it;
                } else if exists|k2: int|
                    0 <= k2 < req.teams@.len() && team_items(
                        cat.games@,
                        (#[trigger] req.teams@[k2])@,
                    ).contains(it) {
                    let k2 = choose|k2: int|
                        0 <= k2 < req.teams@.len() && team_items(
                            cat.games@,
                            (#[trigger] req.teams@[k2])@,
                        ).contains(it);
                    let i2 = choose|i2: int|
                        0 <= i2 < cat.games@.len() && (#[trigger] cat.games@[i2].id) == it && (
                        cat.games@[i2].team_home@ == req.teams@[k2]@ || cat.games@[i2].team_away@
                            == req.teams@[k2]@);
                } else {
                    let k2 = choose|k2: int|
                        0 <= k2 < req.tournaments@.len() && tournament_items(
                            cat.games@,
                            (#[trigger] req.tournaments@[k2])@,
                        ).contains(it);
                    let i2 = choose|i2: int|
                        0 <= i2 < cat.games@.len() && (#[trigger] cat.games@[i2].id) == it
                            && cat.games@[i2].tournament_name@ == req.tournaments@[k2]@;
                }
            }
        }
    }
    let ghost base0 = base@;
    if req.highlights {
        let shifted = base.shifted_up(HIGHLIGHT_OFFSET);
        if req.live {
            base.union_with(&shifted);
        } else {
            base = shifted;
        }
    }
    proof {
        assert(base@ =~= variant_items(base0, req.live, req.highlights));
    }
    if req.only_monthly_billing {
        base.intersect_with(&cat.monthly_covered);
    } else {
        base.intersect_with(&cat.all_covered);
    }
    Ok(base)
}

/// Resolution is idempotent: two resolutions of one request against one
/// catalog yield the same required set, bit for bit.
pub proof fn lemma_resolution_idempotent(cat: Catalog, req: SolveRequest, r1: ItemSet, r2: ItemSet)
    requires
        r1@ == resolved_items(cat, req),
        r2@ == resolved_items(cat, req),
    ensures
        r1@ == r2@,
{
}

} // verus!