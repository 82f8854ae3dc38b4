use bevy_flowfield_tiles_plugin::cost_field::CostField;
use bevy_flowfield_tiles_plugin::cost_fields::CostFields;
use bevy_flowfield_tiles_plugin::fields::cost_field::CostField as SectorCostField;
use bevy_flowfield_tiles_plugin::fields::FieldCell;

#[test]
fn cost_field_get_cost_field_value() {
    let mut cost_field = CostField::default();
    cost_field.set_grid_value(255, 9, 9);
    let result = cost_field.get_grid_value(9, 9);
    let actual: u8 = 255;
    assert_eq!(actual, result);
}

#[test]
fn cost_field_internal_portal_visibility_true() {
    //  _____________________________
    // |__|__|__|__|__|__|__|__|__|__|
    // |__|__|__|__|__|__|__|__|__|__|
    // |__|__|__|__|__|__|__|__|__|__|
    // |__|__|__|__|__|__|__|__|__|__|
    // |P_|__|__|__|__|__|__|__|__|__|
    // |__|__|__|__|__|__|__|__|__|__|
    // |__|__|__|__|__|__|__|__|__|__|
    // |__|__|__|__|__|x_|x_|__|__|__|
    // |__|__|__|__|__|x_|__|__|__|__|
    // |__|__|__|__|__|x_|P_|__|__|__|
    let mut cost_field = CostField::default();
    cost_field.set_grid_value(255, 5, 9);
    cost_field.set_grid_value(255, 5, 8);
    cost_field.set_grid_value(255, 5, 7);
    cost_field.set_grid_value(255, 6, 7);
    let source = (0, 4);
    let target = (6, 9);

    let result = cost_field.can_internal_portal_pair_see_each_other(source, target);

    let actual = (true, 13);
    assert_eq!(actual, result)
}

#[test]
fn cost_field_internal_portal_visibility_false() {
    //  _____________________________
    // |__|__|__|__|__|__|__|__|__|__|
    // |__|__|__|__|__|__|__|__|__|__|
    // |__|__|__|__|__|__|__|__|__|__|
    // |__|__|__|__|__|__|__|__|__|__|
    // |P_|__|__|__|__|__|__|__|__|__|
    // |__|__|__|__|__|__|__|__|__|__|
    // |__|__|__|__|__|__|__|__|__|__|
    // |__|__|__|__|__|x_|x_|x_|__|__|
    // |__|__|__|__|__|x_|__|x_|__|__|
    // |__|__|__|__|__|x_|P_|x_|__|__|
    let mut cost_field = CostField::default();
    cost_field.set_grid_value(255, 5, 9);
    cost_field.set_grid_value(255, 5, 8);
    cost_field.set_grid_value(255, 5, 7);
    cost_field.set_grid_value(255, 6, 7);
    cost_field.set_grid_value(255, 7, 7);
    cost_field.set_grid_value(255, 7, 8);
    cost_field.set_grid_value(255, 7, 9);
    let source = (0, 4);
    let target = (6, 9);

    let result = cost_field.can_internal_portal_pair_see_each_other(source, target);

    let actual = (false, 14);
    assert_eq!(actual.0, result.0)
}

#[test]
fn get_cost_fields_value() {
    let mut cost_fields = CostFields::default();
    cost_fields.set_grid_value(255, 9, 9);
    let result = cost_fields.get_grid_value(9, 9);
    let actual: u8 = 255;
    assert_eq!(actual, result);
}

#[test]
fn fields_cost_field_get_cost_field_value() {
    let mut cost_field = SectorCostField::default();
    let field_cell = FieldCell::new(9, 9);
    cost_field.set_field_cell_value(255, field_cell);
    let result = cost_field.get_field_cell_value(field_cell);
    let actual: u8 = 255;
    assert_eq!(actual, result);
}

fn walled_field(enclosed: bool) -> SectorCostField {
    let mut cost_field = SectorCostField::default();
    cost_field.set_field_cell_value(255, FieldCell::new(5, 9));
    cost_field.set_field_cell_value(255, FieldCell::new(5, 8));
    cost_field.set_field_cell_value(255, FieldCell::new(5, 7));
    cost_field.set_field_cell_value(255, FieldCell::new(6, 7));
    if enclosed {
        cost_field.set_field_cell_value(255, FieldCell::new(7, 7));
        cost_field.set_field_cell_value(255, FieldCell::new(7, 8));
        cost_field.set_field_cell_value(255, FieldCell::new(7, 9));
    }
    cost_field
}

#[test]
fn fields_cost_field_internal_portal_visibility_true() {
    let cost_field = walled_field(false);
    let source = FieldCell::new(0, 4);
    let target = FieldCell::new(6, 9);
    let result = cost_field.is_cell_pair_reachable(source, target);
    assert!(result)
}

#[test]
fn fields_cost_field_internal_portal_visibility_false() {
    let cost_field = walled_field(true);
    let source = FieldCell::new(0, 4);
    let target = FieldCell::new(6, 9);
    let result = cost_field.is_cell_pair_reachable(source, target);
    let actual = false;
    assert_eq!(actual, result)
}

#[test]
fn internal_cell_distance_some() {
    let cost_field = walled_field(false);
    let source = FieldCell::new(0, 4);
    let target = FieldCell::new(6, 9);
    let result = cost_field.get_distance_between_cells(&source, &target);
    assert!(result.is_some())
}

#[test]
fn internal_cell_distance_none() {
    let cost_field = walled_field(true);
    let source = FieldCell::new(0, 4);
    let target = FieldCell::new(6, 9);
    let result = cost_field.get_distance_between_cells(&source, &target);
    assert!(result.is_none())
}

#[test]
fn update() {
    let mut field = SectorCostField::new_with_cost(5);
    let cell = FieldCell::new(3, 6);
    field.set_field_cell_value(128, cell);
    let actual = 128;
    let result = field.get_field_cell_value(cell);
    assert_eq!(actual, result);
}

#[test]
fn cost_field_reachability_is_symmetric() {
    let cost_field = walled_field(false);
    let a = FieldCell::new(0, 4);
    let b = FieldCell::new(6, 9);
    assert_eq!(
        cost_field.is_cell_pair_reachable(a, b),
        cost_field.is_cell_pair_reachable(b, a)
    );
    let enclosed = walled_field(true);
    assert_eq!(
        enclosed.is_cell_pair_reachable(a, b),
        enclosed.is_cell_pair_reachable(b, a)
    );
}

#[test]
fn cost_field_distance_is_mean_explored_cost() {
    // every explored cell costs 1, but the leading zero pulls the integer mean down to 0
    let cost_field = SectorCostField::default();
    let a = FieldCell::new(0, 0);
    let b = FieldCell::new(3, 4);
    assert_eq!(Some(0), cost_field.get_distance_between_cells(&a, &b));
    assert_eq!(Some(1), cost_field.get_distance_between_cells(&a, &a));
    // with every cell costing 9 the mean of n nines and one zero is 8 once n >= 9
    let heavy = SectorCostField::new_with_cost(9);
    assert_eq!(Some(8), heavy.get_distance_between_cells(&a, &FieldCell::new(9, 9)));
}

#[test]
fn cost_field_flat_is_row_major() {
    let mut cost_field = SectorCostField::default();
    cost_field.set_field_cell_value(9, FieldCell::new(2, 3));
    let flat = cost_field.to_flat();
    assert_eq!(9, flat[3 * 10 + 2]);
    assert_eq!(1, flat[2 * 10 + 3]);
}

// cells that cannot see each other report the number of rounds explored:
// the cells the source reaches lie in that many layers
#[test]
fn portal_visibility_counts_explored_rounds() {
    let mut cost_field = SectorCostField::default();
    for row in 0..10 {
        cost_field.set_field_cell_value(255, FieldCell::new(5, row));
    }
    let result = cost_field.can_internal_portal_pair_see_each_other(FieldCell::new(0, 0), FieldCell::new(9, 9));
    // the farthest reachable cell, (4, 9), is 13 steps away
    assert_eq!(result, (false, 14));
}

// the same cell outside the field sees itself at once
#[test]
fn portal_visibility_same_cell_anywhere() {
    let cost_field = CostField::default();
    assert_eq!(cost_field.can_internal_portal_pair_see_each_other((12, 40), (12, 40)), (true, 0));
}

// costs below the impassable value do not change what portals see
#[test]
fn portal_visibility_ignores_passable_costs() {
    let mut plain = CostField::default();
    let mut weighted = CostField::default();
    for row in 0..10 {
        plain.set_grid_value(255, 5, row);
        weighted.set_grid_value(255, 5, row);
        weighted.set_grid_value(200, 2, row);
    }
    plain.set_grid_value(1, 5, 4);
    weighted.set_grid_value(1, 5, 4);
    for (s, t) in [((0, 0), (9, 9)), ((0, 0), (4, 9)), ((1, 1), (1, 1))] {
        assert_eq!(
            plain.can_internal_portal_pair_see_each_other(s, t),
            weighted.can_internal_portal_pair_see_each_other(s, t)
        );
    }
}
