//! A cost field addressed by `(column, row)` grid positions. A value of 1 is
//! the default, a value of 255 marks a cell that cannot be passed and other
//! values mark increasingly costly terrain.

use vstd::prelude::*;
use crate::fields::{FieldCell, field_len};
use crate::fields::search::{
    explore, farthest_layer, lemma_farthest_layer_unique, lemma_same_paths_same_layers, lemma_same_walls_same_walks,
    lemma_shortest_steps_unique, reachable, shortest_steps,
};
use crate::utilities::FIELD_RESOLUTION;

verus! {

/// Costs of the cells of a sector, stored by `[column][row]`
#[derive(Clone, Copy, Debug)]
pub struct CostField([[u8; FIELD_RESOLUTION]; FIELD_RESOLUTION]);

/// The cell at a `(column, row)` grid position
pub open spec fn grid_cell(p: (usize, usize)) -> FieldCell {
    FieldCell { column: p.0, row: p.1 }
}

impl CostField {
    /// The costs of the field in flattened (row-major) order
    pub closed spec fn costs(self) -> Seq<u8> {
        Seq::new(field_len() as nat, |i: int| self.0[i % 10][i / 10])
    }

    /// The flattened costs always cover a whole field
    pub proof fn lemma_costs_len(self)
        ensures
            self.costs().len() == field_len(),
    {
    }

    /// Get the cost of the cell at `(column, row)`
    pub fn get_grid_value(&self, column: usize, row: usize) -> (r: u8)
        requires
            column < FIELD_RESOLUTION,
            row < FIELD_RESOLUTION,
        ensures
            r == self.costs()[row * 10 + column],
            self.costs().len() == field_len(),
    {
        proof {
            vstd::arithmetic::div_mod::lemma_fundamental_div_mod_converse(row * 10 + column, 10, row as int, column as int);
        }
        self.0[column][row]
    }

    /// Set the cost of the cell at `(column, row)`
    pub fn set_grid_value(&mut self, value: u8, column: usize, row: usize)
        requires
            column < FIELD_RESOLUTION,
            row < FIELD_RESOLUTION,
        ensures
            final(self).costs() == old(self).costs().update(row * 10 + column, value),
            old(self).costs().len() == field_len(),
            final(self).costs().len() == field_len(),
    {
        proof {
            vstd::arithmetic::div_mod::lemma_fundamental_div_mod_converse(row * 10 + column, 10, row as int, column as int);
        }
        let mut col = self.0[column];
        col[row] = value;
        self.0[column] = col;
        proof {
            assert forall|i: int| 0 <= i < field_len() && i != row * 10 + column implies #[trigger] (i % 10) != column
                || i / 10 != row by {
                vstd::arithmetic::div_mod::lemma_fundamental_div_mod(i, 10);
            }
        }
        assert(self.costs() =~= old(self).costs().update(row * 10 + column, value));
    }

    /// Tests whether two portals can see each other within a sector (one
    /// might be boxed in by impassable cost field values), additionally
    /// returns the number of steps taken to find a route between the two -
    /// this can be used as an edge weight
    pub fn can_internal_portal_pair_see_each_other(&self, source: (usize, usize), target: (usize, usize)) -> (r: (bool, i32))
        requires
            source == target || (source.0 < FIELD_RESOLUTION && source.1 < FIELD_RESOLUTION && target.0
                < FIELD_RESOLUTION && target.1 < FIELD_RESOLUTION),
        ensures
            source == target ==> r == (true, 0i32),
            source != target ==> r.0 == reachable(self.costs(), grid_cell(source), grid_cell(target)),
            source != target && r.0 ==> shortest_steps(self.costs(), grid_cell(source), grid_cell(target), r.1 as int),
            source != target ==> 1 <= r.1 <= 100,
            source != target && !r.0 ==> farthest_layer(self.costs(), grid_cell(source), r.1 as int),
            portal_sight(self.costs(), source, target, r),
    {
        // instance of corner portals overlapping from a cramped world
        if source.0 == target.0 && source.1 == target.1 {
            return (true, 0);
        }
        let mut flat: [u8; 100] = [0; 100];
        let mut i: usize = 0;
        while i < 100
            invariant
                0 <= i <= 100,
                forall|k: int| 0 <= k < i ==> flat@[k] == self.costs()[k],
            decreases 100 - i,
        {
            flat[i] = self.0[i % 10][i / 10];
            i = i + 1;
        }
        assert(flat@ =~= self.costs());
        let e = explore(&flat, FieldCell::new(source.0, source.1), FieldCell::new(target.0, target.1));
        (e.found, e.rounds)
    }
}

/// What [CostField::can_internal_portal_pair_see_each_other] answers for
/// two cells of a field with the given costs
pub open spec fn portal_sight(costs: Seq<u8>, source: (usize, usize), target: (usize, usize), r: (bool, i32)) -> bool {
    if source == target {
        r == (true, 0i32)
    } else {
        &&& r.0 == reachable(costs, grid_cell(source), grid_cell(target))
        &&& r.0 ==> shortest_steps(costs, grid_cell(source), grid_cell(target), r.1 as int)
        &&& !r.0 ==> farthest_layer(costs, grid_cell(source), r.1 as int)
        &&& 1 <= r.1 <= 100
    }
}

/// Costs between 1 and 254 do not weigh on whether two portal cells see each
/// other or on the step count: two fields with the same impassable cells give
/// the same answer
pub proof fn lemma_sight_ignores_costs(
    a: CostField,
    b: CostField,
    source: (usize, usize),
    target: (usize, usize),
    ra: (bool, i32),
    rb: (bool, i32),
)
    requires
        forall|i: int| 0 <= i < field_len() ==> (#[trigger] a.costs()[i] == 255) == (b.costs()[i] == 255),
        portal_sight(a.costs(), source, target, ra),
        portal_sight(b.costs(), source, target, rb),
    ensures
        ra == rb,
{
    if source != target {
        a.lemma_costs_len();
        b.lemma_costs_len();
        let s = grid_cell(source);
        let t = grid_cell(target);
        lemma_same_walls_same_walks(a.costs(), b.costs(), s, t);
        if ra.0 {
            assert(shortest_steps(a.costs(), s, t, rb.1 as int));
            lemma_shortest_steps_unique(a.costs(), s, t, ra.1 as int, rb.1 as int);
        } else {
            lemma_same_paths_same_layers(a.costs(), b.costs(), s, rb.1 as int);
            lemma_farthest_layer_unique(a.costs(), s, ra.1 as int, rb.1 as int);
        }
    }
}

impl Default for CostField {
    /// Every cell gets the default cost of `1`
    fn default() -> (r: CostField)
        ensures
            r.costs() == Seq::new(field_len() as nat, |i: int| 1u8),
    {
        let r = CostField([[1; FIELD_RESOLUTION]; FIELD_RESOLUTION]);
        assert(r.costs() =~= Seq::new(field_len() as nat, |i: int| 1u8));
        r
    }
}

} // verus!
