//! A step of a route: the sector to path through and the goal within it,
//! either the final goal or the portal window leading out of the sector

use vstd::prelude::*;
use crate::portal::PortalWindow;
use crate::sectors::SectorID;
use crate::fields::FieldCell;

verus! {

/// Describes a sector and the goal an actor should path to within it
#[derive(Clone, Copy, PartialEq, Eq, Structural, Debug, Hash, PartialOrd, Ord)]
pub struct RouteStep {
    /// The sector of the step
    pub sector: SectorID,
    /// Flattened index of the goal cell within the sector
    pub goal: usize,
    /// The portal window leading out of the sector, `None` for the final goal
    pub portal: Option<PortalWindow>,
}

impl RouteStep {
    /// Create a new [RouteStep]
    pub fn new(sector: &SectorID, goal: usize, portal: Option<PortalWindow>) -> (r: RouteStep)
        ensures
            r.sector == *sector,
            r.goal == goal,
            r.portal == portal,
    {
        RouteStep { sector: *sector, goal, portal }
    }

    /// Get the sector of the step
    pub fn get_sector(&self) -> (r: &SectorID)
        ensures
            *r == self.sector,
    {
        &self.sector
    }

    /// Get the flattened index of the goal cell
    pub fn get_goal(&self) -> (r: usize)
        ensures
            r == self.goal,
    {
        self.goal
    }

    /// Get the portal window of the step, if any
    pub fn portal(&self) -> (r: &Option<PortalWindow>)
        ensures
            *r == self.portal,
    {
        &self.portal
    }
}

/// The steps of a portal route kept for an actor: the first step, every
/// second step after it (the ones leaving a sector), and the last step with
/// its cell replaced by the goal
pub open spec fn portal_exits(path: Seq<(SectorID, FieldCell)>, target_goal: FieldCell) -> Seq<(SectorID, FieldCell)> {
    let n = path.len() as int;
    let end = (path[n - 1].0, target_goal);
    let middle = Seq::new(((n - 2) / 2) as nat, |k: int| path[2 + 2 * k]);
    if n >= 2 {
        seq![path[0]] + middle + seq![end]
    } else {
        seq![end]
    }
}

/// Generated portal-portal routes contain two elements for each sector, one
/// for an actor's entry and one for its exit; only the elements an actor uses
/// to exit a sector are needed, so the route is trimmed down to those. The
/// last element's cell becomes the goal
pub fn filter_path(path: &mut Vec<(SectorID, FieldCell)>, target_goal: FieldCell)
    requires
        old(path)@.len() >= 1,
    ensures
        final(path)@ == portal_exits(old(path)@, target_goal),
{
    let ghost orig = path@;
    let ghost n = orig.len() as int;
    let mut path_based_on_portal_exits: Vec<(SectorID, FieldCell)> = Vec::new();
    // target sector and entry portal where the entry portal cell is switched
    // to the goal
    let mut end = path.pop().unwrap();
    end.1 = target_goal;
    // sector and field of leaving the starting sector if source and target
    // sectors are different
    if path.len() > 0 {
        let start = path.remove(0);
        path_based_on_portal_exits.push(start);
    }
    // all other elements are in pairs for entering and leaving sectors on the
    // way to the goal, keep the leaving ones
    let mut i: usize = 1;
    while i < path.len()
        invariant
            n == orig.len(),
            n >= 1,
            n >= 2 ==> path@ == orig.subrange(1, n - 1),
            n < 2 ==> path@.len() == 0,
            1 <= i,
            i % 2 == 1,
            i <= path@.len() + 1,
            n >= 2 ==> path_based_on_portal_exits@ == seq![orig[0]] + Seq::new((i / 2) as nat, |k: int| orig[2 + 2 * k]),
            n < 2 ==> path_based_on_portal_exits@.len() == 0,
        decreases path@.len() + 1 - i,
    {
        let ghost before = path_based_on_portal_exits@;
        path_based_on_portal_exits.push(path[i]);
        proof {
            assert(n >= 2);
            vstd::arithmetic::div_mod::lemma_fundamental_div_mod(i as int, 2);
            assert(2 * (i / 2) == i - 1);
            assert((i + 2) / 2 == i / 2 + 1) by {
                vstd::arithmetic::div_mod::lemma_fundamental_div_mod_converse(i + 2, 2, i / 2 + 1, 1);
            }
            assert(path@ == orig.subrange(1, n - 1));
            assert(i < n - 2);
            assert(orig.subrange(1, n - 1)[i as int] == orig[1 + i]);
            assert(path@[i as int] == orig[1 + i]);
            assert(orig[2 + 2 * (i / 2)] == orig[1 + i]);
            assert(path_based_on_portal_exits@ =~= seq![orig[0]] + Seq::new(((i + 2) / 2) as nat, |k: int| orig[2 + 2 * k]));
        }
        i = i + 2;
    }
    path_based_on_portal_exits.push(end);
    proof {
        if n >= 2 {
            vstd::arithmetic::div_mod::lemma_fundamental_div_mod(i as int, 2);
            vstd::arithmetic::div_mod::lemma_fundamental_div_mod(n - 2, 2);
            assert(i / 2 == (n - 2) / 2);
        }
        assert(path_based_on_portal_exits@ =~= portal_exits(orig, target_goal));
    }
    *path = path_based_on_portal_exits;
}

} // verus!
