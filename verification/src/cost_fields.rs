//! Cost fields addressed by `(column, row)` grid positions. A value of 1 is
//! the default, a value of 255 marks a cell that cannot be passed and other
//! values mark increasingly costly terrain.

use vstd::prelude::*;
use crate::fields::field_len;
use crate::utilities::FIELD_RESOLUTION;

verus! {

/// Costs of the cells of a sector, stored by `[column][row]`
#[derive(Clone, Copy, Debug)]
pub struct CostFields([[u8; FIELD_RESOLUTION]; FIELD_RESOLUTION]);

impl CostFields {
    /// The costs of the field in flattened (row-major) order
    pub closed spec fn costs(self) -> Seq<u8> {
        Seq::new(field_len() as nat, |i: int| self.0[i % 10][i / 10])
    }

    /// The flattened costs always cover a whole field
    pub proof fn lemma_costs_len(self)
        ensures
            self.costs().len() == field_len(),
    {
    }

    /// Get the cost of the cell at `(column, row)`
    pub fn get_grid_value(&self, column: usize, row: usize) -> (r: u8)
        requires
            column < FIELD_RESOLUTION,
            row < FIELD_RESOLUTION,
        ensures
            r == self.costs()[row * 10 + column],
            self.costs().len() == field_len(),
    {
        proof {
            vstd::arithmetic::div_mod::lemma_fundamental_div_mod_converse(row * 10 + column, 10, row as int, column as int);
        }
        self.0[column][row]
    }

    /// Set the cost of the cell at `(column, row)`
    pub fn set_grid_value(&mut self, value: u8, column: usize, row: usize)
        requires
            column < FIELD_RESOLUTION,
            row < FIELD_RESOLUTION,
        ensures
            final(self).costs() == old(self).costs().update(row * 10 + column, value),
            old(self).costs().len() == field_len(),
            final(self).costs().len() == field_len(),
    {
        proof {
            vstd::arithmetic::div_mod::lemma_fundamental_div_mod_converse(row * 10 + column, 10, row as int, column as int);
        }
        let mut col = self.0[column];
        col[row] = value;
        self.0[column] = col;
        proof {
            assert forall|i: int| 0 <= i < field_len() && i != row * 10 + column implies #[trigger] (i % 10) != column
                || i / 10 != row by {
                vstd::arithmetic::div_mod::lemma_fundamental_div_mod(i, 10);
            }
        }
        assert(self.costs() =~= old(self).costs().update(row * 10 + column, value));
    }
}

impl Default for CostFields {
    /// Every cell gets the default cost of `1`
    fn default() -> (r: CostFields)
        ensures
            r.costs() == Seq::new(field_len() as nat, |i: int| 1u8),
    {
        let r = CostFields([[1; FIELD_RESOLUTION]; FIELD_RESOLUTION]);
        assert(r.costs() =~= Seq::new(field_len() as nat, |i: int| 1u8));
        r
    }
}

} // verus!
