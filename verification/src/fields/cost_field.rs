//! The CostField contains a 2D array of 8-bit values. The values correspond
//! to the cost of that cell in the array. A value of 1 is the default, a
//! value of 255 is a special case that indicates that the field cell is
//! strictly forbidden from being used in a pathing calculation (effectively
//! saying there is a wall or cliff/impassable terrain there). Any other value
//! indicates a harder cost of movement which could be from a slope or
//! marshland or others.

use vstd::prelude::*;
use crate::fields::{FieldCell, field_len};
use crate::fields::search::{explore, farthest_layer, is_walk, reachable, shortest_steps};
use crate::utilities::FIELD_RESOLUTION;

verus! {

/// Costs of the cells of a sector, stored by `[column][row]`
#[derive(Clone, Copy, Debug)]
pub struct CostField([[u8; FIELD_RESOLUTION]; FIELD_RESOLUTION]);

/// The number of steps of the shortest walk between two cells of a field,
/// `0` from a cell to itself
pub open spec fn steps_between(costs: Seq<u8>, source: FieldCell, target: FieldCell) -> int {
    if source == target {
        0
    } else {
        choose|n: int| shortest_steps(costs, source, target, n)
    }
}

/// Shortest walks between two cells all have the same number of steps
pub proof fn lemma_steps_between(costs: Seq<u8>, source: FieldCell, target: FieldCell, n: int)
    requires
        source != target,
        shortest_steps(costs, source, target, n),
    ensures
        steps_between(costs, source, target) == n,
{
    let m = choose|m: int| shortest_steps(costs, source, target, m);
    assert(shortest_steps(costs, source, target, m));
    let wm = choose|w: Seq<FieldCell>| is_walk(costs, w, source, target) && w.len() == m + 1;
    let wn = choose|w: Seq<FieldCell>| is_walk(costs, w, source, target) && w.len() == n + 1;
    assert(wn.len() >= m + 1);
    assert(wm.len() >= n + 1);
}

/// A sequence of field length holding `value` everywhere
pub open spec fn uniform(value: u8) -> Seq<u8> {
    Seq::new(field_len() as nat, |i: int| value)
}

impl CostField {
    /// The costs of the field in flattened (row-major) order
    pub closed spec fn costs(self) -> Seq<u8> {
        Seq::new(field_len() as nat, |i: int| self.0[i % 10][i / 10])
    }

    /// The flattened costs always cover a whole field
    pub proof fn lemma_costs_len(self)
        ensures
            self.costs().len() == field_len(),
    {
    }

    /// Create a new [CostField] with all cell values initialised with `cost`
    pub fn new_with_cost(cost: u8) -> (r: CostField)
        ensures
            r.costs() == uniform(cost),
    {
        let r = CostField([[cost; FIELD_RESOLUTION]; FIELD_RESOLUTION]);
        assert(r.costs() =~= uniform(cost));
        r
    }

    /// Get a reference to the field array, indexed by `[column][row]`
    pub fn get(&self) -> (r: &[[u8; FIELD_RESOLUTION]; FIELD_RESOLUTION])
        ensures
            forall|c: int, rr: int|
                0 <= c < 10 && 0 <= rr < 10 ==> #[trigger] r[c][rr] == self.costs()[rr * 10 + c],
    {
        assert forall|c: int, rr: int| 0 <= c < 10 && 0 <= rr < 10 implies #[trigger] self.0[c][rr]
            == self.costs()[rr * 10 + c] by {
            assert((rr * 10 + c) % 10 == c && (rr * 10 + c) / 10 == rr) by {
                vstd::arithmetic::div_mod::lemma_fundamental_div_mod_converse(rr * 10 + c, 10, rr, c);
            }
        }
        &self.0
    }

    /// Retrieve a field cell value
    pub fn get_field_cell_value(&self, field_cell: FieldCell) -> (r: u8)
        requires
            field_cell.wf(),
        ensures
            r == self.costs()[field_cell.index()],
            self.costs().len() == field_len(),
    {
        proof {
            lemma_index_parts(field_cell);
        }
        self.0[field_cell.get_column()][field_cell.get_row()]
    }

    /// Set a field cell to a value
    pub fn set_field_cell_value(&mut self, value: u8, field_cell: FieldCell)
        requires
            field_cell.wf(),
        ensures
            final(self).costs() == old(self).costs().update(field_cell.index(), value),
            final(self).costs().len() == field_len(),
    {
        proof {
            lemma_index_parts(field_cell);
        }
        let c = field_cell.get_column();
        let r = field_cell.get_row();
        let mut column = self.0[c];
        column[r] = value;
        self.0[c] = column;
        proof {
            assert forall|i: int| 0 <= i < field_len() && i != field_cell.index() implies #[trigger] (i % 10) != c
                || i / 10 != r by {
                vstd::arithmetic::div_mod::lemma_fundamental_div_mod(i, 10);
            }
        }
        assert(self.costs() =~= old(self).costs().update(field_cell.index(), value));
    }

    /// The costs as one flattened array
    pub fn to_flat(&self) -> (r: [u8; 100])
        ensures
            r@ == self.costs(),
    {
        let mut r: [u8; 100] = [0; 100];
        let mut i: usize = 0;
        while i < 100
            invariant
                0 <= i <= 100,
                forall|k: int| 0 <= k < i ==> r@[k] == self.costs()[k],
            decreases 100 - i,
        {
            r[i] = self.0[i % 10][i / 10];
            i = i + 1;
        }
        assert(r@ =~= self.costs());
        r
    }

    /// Tests whether two cells can reach each other within a sector (one
    /// might be boxed in by impassable cost field values)
    pub fn is_cell_pair_reachable(&self, source: FieldCell, target: FieldCell) -> (r: bool)
        requires
            source.wf(),
            target.wf(),
        ensures
            r == reachable(self.costs(), source, target),
    {
        // instance of corner cells overlapping
        if source == target {
            assert(crate::fields::search::is_walk(self.costs(), seq![source], source, source));
            return true;
        }
        let flat = self.to_flat();
        explore(&flat, source, target).found
    }

    /// Tests whether two portal cells can see each other within a sector (one
    /// might be boxed in by impassable cost field values), additionally
    /// returns the number of steps of the shortest route between the two,
    /// which can be used as an edge weight
    pub fn can_internal_portal_pair_see_each_other(&self, source: FieldCell, target: FieldCell) -> (r: (bool, i32))
        requires
            source.wf(),
            target.wf(),
        ensures
            r.0 == reachable(self.costs(), source, target),
            r.0 ==> r.1 == steps_between(self.costs(), source, target),
            !r.0 ==> farthest_layer(self.costs(), source, r.1 as int),
            0 <= r.1 <= 100,
    {
        // instance of corner portals overlapping from a cramped world
        if source == target {
            assert(is_walk(self.costs(), seq![source], source, source));
            return (true, 0);
        }
        let flat = self.to_flat();
        let e = explore(&flat, source, target);
        proof {
            if e.found {
                lemma_steps_between(self.costs(), source, target, e.rounds as int);
            }
        }
        (e.found, e.rounds)
    }

    /// Find whether there's a path between two cells and a weighting for the
    /// distance between them: the mean cost of the cells explored while
    /// searching (with a leading zero), or `1` for a cell with itself
    #[verifier::rlimit(30)]
    pub fn get_distance_between_cells(&self, source: &FieldCell, target: &FieldCell) -> (r: Option<i32>)
        requires
            source.wf(),
            target.wf(),
        ensures
            r is Some <==> reachable(self.costs(), *source, *target),
            *source == *target ==> r == Some(1i32),
            r matches Some(d) ==> 0 <= d <= 255,
    {
        // instance of corner portals overlapping from cramped world
        if *source == *target {
            assert(crate::fields::search::is_walk(self.costs(), seq![*source], *source, *source));
            return Some(1);
        }
        let flat = self.to_flat();
        let e = explore(&flat, *source, *target);
        if e.found {
            let avg = e.cost_sum / e.cost_count;
            proof {
                vstd::arithmetic::div_mod::lemma_div_is_ordered(e.cost_sum as int, 255 * e.cost_count, e.cost_count as int);
                vstd::arithmetic::div_mod::lemma_div_multiples_vanish(255, e.cost_count as int);
            }
            Some(avg as i32)
        } else {
            None
        }
    }
}

/// The position of a cell in the flattened field splits back into its column and row
proof fn lemma_index_parts(c: FieldCell)
    requires
        c.wf(),
    ensures
        c.index() % 10 == c.column,
        c.index() / 10 == c.row,
{
    vstd::arithmetic::div_mod::lemma_fundamental_div_mod_converse(c.index(), 10, c.row as int, c.column as int);
}

impl Default for CostField {
    /// Every cell gets the default cost of `1`
    fn default() -> (r: CostField)
        ensures
            r.costs() == uniform(1),
    {
        CostField::new_with_cost(1)
    }
}

} // verus!
