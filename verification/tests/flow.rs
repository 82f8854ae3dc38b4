use bevy_flowfield_tiles_plugin::fields::cost_field::CostField;
use bevy_flowfield_tiles_plugin::fields::flow_field::{
    convert_compass_dir_to_bits_dir, get_compass_dir_from_bits, has_line_of_sight, is_goal, is_pathable,
    is_portal_goal, is_wall, FlowField, BITS_COST_FILTER, BITS_DEFAULT, BITS_EAST, BITS_FLAG_FILTER, BITS_GOAL,
    BITS_HAS_LOS, BITS_IMPASSABLE, BITS_NORTH, BITS_NORTH_EAST, BITS_NORTH_WEST, BITS_PATHABLE, BITS_PORTAL_GOAL,
    BITS_SOUTH, BITS_SOUTH_EAST, BITS_SOUTH_WEST, BITS_WEST,
};
use bevy_flowfield_tiles_plugin::fields::integration_field::{
    IntegrationField, INT_BITS_GOAL, INT_BITS_IMPASSABLE, INT_BITS_LOS, INT_BITS_PORTAL, INT_BITS_WAVE_BLOCKED,
    INT_FILTER_BITS_COST, INT_FILTER_BITS_FLAGS,
};
use bevy_flowfield_tiles_plugin::fields::FieldCell;
use bevy_flowfield_tiles_plugin::flowfield_cache::FlowFieldCache;
use bevy_flowfield_tiles_plugin::portal::PortalWindow;
use bevy_flowfield_tiles_plugin::route::{filter_path, RouteStep};
use bevy_flowfield_tiles_plugin::sectors::SectorID;
use bevy_flowfield_tiles_plugin::utilities::CompassDir;

// g = goal, X = wall, see the diagrams of the LOS tests
fn walled_costfield() -> CostField {
    let mut costfield = CostField::default();
    costfield.set_field_cell_value(255, FieldCell::new(3, 5));
    costfield.set_field_cell_value(255, FieldCell::new(4, 5));
    costfield.set_field_cell_value(255, FieldCell::new(5, 5));
    costfield.set_field_cell_value(255, FieldCell::new(2, 9));
    costfield.set_field_cell_value(255, FieldCell::new(6, 9));
    costfield
}

#[test]
fn goal_set_final() {
    let costfield = CostField::default();
    let sector = SectorID::new(1, 1);
    let goal = 14;
    let portal = None;
    let route_step = RouteStep::new(&sector, goal, portal);
    let int_field = IntegrationField::init(&costfield, &route_step);

    assert!(int_field.get()[14] & INT_BITS_GOAL == INT_BITS_GOAL);
}

#[test]
fn goal_set_portal() {
    let costfield = CostField::default();
    let sector = SectorID::new(1, 1);
    let goal = 94;
    let portal = Some(PortalWindow::new(FieldCell::new(0, 9), FieldCell::new(9, 9), CompassDir::South));
    let route_step = RouteStep::new(&sector, goal, portal);
    let int_field = IntegrationField::init(&costfield, &route_step);

    for i in 90..100 {
        assert!(int_field.get()[i] & INT_BITS_PORTAL == INT_BITS_PORTAL);
    }
}

#[test]
fn check_los() {
    let costfield = walled_costfield();
    let sector = SectorID::new(1, 1);
    let goal = 84;
    let portal = None;
    let route_step = RouteStep::new(&sector, goal, portal);
    let int_field = IntegrationField::init(&costfield, &route_step);

    let r_c = FieldCell::new(1, 9);
    let r = int_field.get_field_cell_value(r_c);
    println!("{:?} :: flags: {:#034b}, cost: {:#034b}", r_c, r & INT_FILTER_BITS_FLAGS, r & INT_FILTER_BITS_COST);
    assert!(r & INT_BITS_WAVE_BLOCKED == INT_BITS_WAVE_BLOCKED);

    let r_c = FieldCell::new(2, 5);
    let r = int_field.get_field_cell_value(r_c);
    assert!(r & INT_BITS_WAVE_BLOCKED == INT_BITS_WAVE_BLOCKED);

    let r_c = FieldCell::new(1, 4);
    let r = int_field.get_field_cell_value(r_c);
    assert!(r & INT_BITS_WAVE_BLOCKED == INT_BITS_WAVE_BLOCKED);

    let r_c = FieldCell::new(3, 8);
    let r = int_field.get_field_cell_value(r_c);
    assert!(r & INT_BITS_LOS == INT_BITS_LOS);

    // as the LOS propagation works round in a clockwise fashion (2, 8) is
    // marked as blocked even though it is parallel to the goal
    let r_c = FieldCell::new(2, 8);
    let r = int_field.get_field_cell_value(r_c);
    assert!(r & INT_BITS_WAVE_BLOCKED == INT_BITS_WAVE_BLOCKED);
}

#[test]
fn integration_walls_and_goal_after_build() {
    let costfield = walled_costfield();
    let route_step = RouteStep::new(&SectorID::new(0, 0), 84, None);
    let mut int_field = IntegrationField::init(&costfield, &route_step);
    int_field.build(&costfield);
    let goal = int_field.get_field_cell_value(FieldCell::new(4, 8));
    assert_eq!(0, goal & INT_FILTER_BITS_COST);
    assert!(goal & INT_BITS_GOAL == INT_BITS_GOAL);
    let wall = int_field.get_field_cell_value(FieldCell::new(4, 5));
    assert!(wall & INT_BITS_IMPASSABLE == INT_BITS_IMPASSABLE);
    // behind the wall the wavefront walks round: the cost grows away from the goal
    let near = int_field.get_field_cell_value(FieldCell::new(4, 4)) & INT_FILTER_BITS_COST;
    let far = int_field.get_field_cell_value(FieldCell::new(4, 0)) & INT_FILTER_BITS_COST;
    assert!(near > 0);
    assert!(far > near);
}

#[test]
fn integration_set_and_get() {
    let mut int_field = IntegrationField::default();
    int_field.set_field_cell_value(42, FieldCell::new(7, 2));
    assert_eq!(42, int_field.get_field_cell_value(FieldCell::new(7, 2)));
    assert_eq!(42, int_field.get()[27]);
}

#[test]
fn default_init() {
    let flow_field = FlowField::default();
    let v = flow_field.get_field_cell_value(FieldCell::new(0, 0));
    assert_eq!(BITS_DEFAULT, v);
}

#[test]
fn starting_flags() {
    let costfield = walled_costfield();
    let sector = SectorID::new(1, 1);
    let goal = 84;
    let portal = None;
    let route_step = RouteStep::new(&sector, goal, portal);
    let int_field = IntegrationField::init(&costfield, &route_step);

    // without a portal a new flowfield holds only the starting flags
    let flowfield = FlowField::new(&route_step, &int_field, None);

    let r_c = FieldCell::new(2, 9);
    let r = flowfield.get_field_cell_value(r_c);
    println!("{:?} :: flags: {:#010b}, cost: {:#010b}", r_c, r & BITS_FLAG_FILTER, r & BITS_COST_FILTER);
    assert!(r & BITS_IMPASSABLE == BITS_IMPASSABLE);

    let r_c = FieldCell::new(4, 8);
    let r = flowfield.get_field_cell_value(r_c);
    assert!(r & BITS_GOAL == BITS_GOAL);

    let r_c = FieldCell::new(4, 7);
    let r = flowfield.get_field_cell_value(r_c);
    assert!(r & BITS_HAS_LOS == BITS_HAS_LOS);
}

#[test]
fn portal_dir_north() {
    let prev_costfield = CostField::default();
    let prev_sector = SectorID::new(1, 0);
    let prev_goal = 25;
    let prev_portal = None;
    let prev_route_step = RouteStep::new(&prev_sector, prev_goal, prev_portal);
    let mut prev_int_field = IntegrationField::init(&prev_costfield, &prev_route_step);
    prev_int_field.build(&prev_costfield);

    let costfield = CostField::default();
    let sector = SectorID::new(1, 1);
    let goal = 0;
    let portal = Some(PortalWindow::new(FieldCell::new(0, 0), FieldCell::new(0, 0), CompassDir::North));
    let route_step = RouteStep::new(&sector, goal, portal);
    let int_field = IntegrationField::init(&costfield, &route_step);

    let flowfield = FlowField::new(&route_step, &int_field, Some(&prev_int_field));

    let r_c = flowfield.get()[0];
    assert!(r_c & BITS_NORTH == BITS_NORTH)
}

#[test]
fn flags_after_build() {
    let costfield = walled_costfield();
    let sector = SectorID::new(1, 1);
    let goal = 84;
    let portal = None;
    let route_step = RouteStep::new(&sector, goal, portal);
    let int_field = IntegrationField::init(&costfield, &route_step);

    let mut flowfield = FlowField::new(&route_step, &int_field, None);
    flowfield.build(&int_field);

    let r_c = FieldCell::new(2, 9);
    let r = flowfield.get_field_cell_value(r_c);
    println!("{:?} :: flags: {:#010b}, cost: {:#010b}", r_c, r & BITS_FLAG_FILTER, r & BITS_COST_FILTER);
    assert!(r & BITS_IMPASSABLE == BITS_IMPASSABLE);

    let r_c = FieldCell::new(3, 7);
    let r = flowfield.get_field_cell_value(r_c);
    assert!(r & BITS_PATHABLE == BITS_PATHABLE);

    let r_c = FieldCell::new(4, 8);
    let r = flowfield.get_field_cell_value(r_c);
    assert!(r & BITS_GOAL == BITS_GOAL);

    let r_c = FieldCell::new(4, 7);
    let r = flowfield.get_field_cell_value(r_c);
    assert!(r & BITS_HAS_LOS == BITS_HAS_LOS);
}

#[test]
fn flow_points_round_the_wall() {
    let costfield = walled_costfield();
    let route_step = RouteStep::new(&SectorID::new(1, 1), 84, None);
    let mut int_field = IntegrationField::init(&costfield, &route_step);
    int_field.build(&costfield);
    let mut flowfield = FlowField::new(&route_step, &int_field, None);
    flowfield.build(&int_field);
    // a cell behind the wall has no sight of the goal and is given a direction
    let behind = FieldCell::new(4, 2);
    assert!(flowfield.is_pathable(&behind));
    assert!(!flowfield.has_los(&behind));
    assert!(flowfield.get_dir(&behind).is_some());
    assert!(flowfield.is_goal(&FieldCell::new(4, 8)));
    assert!(!flowfield.is_portal_goal(&FieldCell::new(4, 8)));
    assert!(flowfield.get_dir(&FieldCell::new(4, 5)).is_none());
}

#[test]
fn direction_bits_round_trip() {
    let dirs = [
        (CompassDir::North, BITS_NORTH),
        (CompassDir::East, BITS_EAST),
        (CompassDir::South, BITS_SOUTH),
        (CompassDir::West, BITS_WEST),
        (CompassDir::NorthEast, BITS_NORTH_EAST),
        (CompassDir::SouthEast, BITS_SOUTH_EAST),
        (CompassDir::SouthWest, BITS_SOUTH_WEST),
        (CompassDir::NorthWest, BITS_NORTH_WEST),
    ];
    for (dir, bits) in dirs.iter() {
        assert_eq!(*bits, convert_compass_dir_to_bits_dir(dir));
        assert_eq!(*dir, get_compass_dir_from_bits(*bits));
        // the flags do not change the direction read back
        assert_eq!(*dir, get_compass_dir_from_bits(*bits | BITS_PATHABLE | BITS_HAS_LOS));
    }
}

#[test]
fn flow_flag_readers() {
    assert!(is_pathable(BITS_PATHABLE | BITS_NORTH));
    assert!(!is_pathable(BITS_DEFAULT));
    // a goal only counts when it is pathable
    assert!(!is_goal(BITS_GOAL));
    assert!(is_goal(BITS_GOAL | BITS_PATHABLE));
    assert!(!is_portal_goal(BITS_PORTAL_GOAL));
    assert!(is_portal_goal(BITS_PORTAL_GOAL | BITS_PATHABLE));
    assert!(has_line_of_sight(BITS_HAS_LOS | BITS_PATHABLE));
    assert!(is_wall(BITS_IMPASSABLE));
    assert!(!is_wall(BITS_GOAL));
}

#[test]
fn removal() {
    let mut cache = FlowFieldCache::default();
    cache.insert(&RouteStep::new(&SectorID::new(0, 0), 1, None), FlowField::default());
    cache.insert(&RouteStep::new(&SectorID::new(0, 1), 32, None), FlowField::default());
    cache.insert(&RouteStep::new(&SectorID::new(1, 1), 18, None), FlowField::default());
    let sectors_to_remove = &[SectorID::new(0, 0), SectorID::new(0, 1)];
    cache.remove_steps_with_sectors(sectors_to_remove);

    assert!(cache.len() == 1);
}

#[test]
fn insert_get() {
    let mut cache = FlowFieldCache::default();
    let step = RouteStep::new(&SectorID::new(0, 0), 1, None);
    cache.insert(&step, FlowField::default());

    let r = cache.get(&step);
    assert!(r.is_some());
}

#[test]
fn cache_insert_replaces_and_remove_drops() {
    let mut cache = FlowFieldCache::new();
    let step = RouteStep::new(&SectorID::new(2, 3), 5, None);
    let mut field = FlowField::default();
    field.set_field_cell_value(BITS_GOAL, FieldCell::new(5, 0));
    cache.insert(&step, FlowField::default());
    cache.insert(&step, field);
    assert_eq!(1, cache.len());
    assert_eq!(BITS_GOAL, cache.get(&step).unwrap().get_field_cell_value(FieldCell::new(5, 0)));
    let other = RouteStep::new(&SectorID::new(2, 3), 6, None);
    assert!(cache.get(&other).is_none());
    cache.remove(&step);
    assert!(cache.get(&step).is_none());
    assert_eq!(0, cache.len());
}

#[test]
fn filter_graph_route() {
    // path in 3x3 sector grid, moving from top right to bottom left
    let mut path: Vec<(SectorID, FieldCell)> = vec![
        (SectorID::new(2, 0), FieldCell::new(0, 4)), // start sector and exit
        (SectorID::new(1, 0), FieldCell::new(9, 4)), // entry portal of next sector
        (SectorID::new(1, 0), FieldCell::new(3, 9)), // exit portal of next sector
        (SectorID::new(1, 1), FieldCell::new(3, 0)), // entry portal of next sector
        (SectorID::new(1, 1), FieldCell::new(5, 9)), // exit portal of next sector
        (SectorID::new(1, 2), FieldCell::new(5, 0)), // entry portal of next sector
        (SectorID::new(1, 2), FieldCell::new(0, 3)), // exit portal of next sector
        (SectorID::new(0, 2), FieldCell::new(9, 3)), // goal sector and entry portal
    ];
    let target_goal = FieldCell::new(4, 4);

    filter_path(&mut path, target_goal);
    let actual = vec![
        (SectorID::new(2, 0), FieldCell::new(0, 4)),
        (SectorID::new(1, 0), FieldCell::new(3, 9)),
        (SectorID::new(1, 1), FieldCell::new(5, 9)),
        (SectorID::new(1, 2), FieldCell::new(0, 3)),
        (SectorID::new(0, 2), FieldCell::new(4, 4)), // gets switch to target_goal
    ];

    assert_eq!(actual, path);
}

#[test]
fn filter_graph_route_back_on_itself() {
    // impassable values mean that the actor must leave its starting sector
    // and re-enter it from a different portal
    let mut path: Vec<(SectorID, FieldCell)> = vec![
        (SectorID::new(2, 0), FieldCell::new(8, 9)), // start sector and exit
        (SectorID::new(2, 1), FieldCell::new(8, 0)), // entry portal of next sector
        (SectorID::new(2, 1), FieldCell::new(6, 0)), // exit back towards start sector
        (SectorID::new(2, 0), FieldCell::new(6, 9)), // entry back into start sector
        (SectorID::new(2, 0), FieldCell::new(4, 9)), // leave starting sector again
        (SectorID::new(2, 1), FieldCell::new(4, 0)), // entry of neighbour again
        (SectorID::new(2, 1), FieldCell::new(2, 0)), // exit back towrards start again
        (SectorID::new(2, 0), FieldCell::new(2, 9)), // last entry into original sector
    ];
    let target_goal = FieldCell::new(2, 1);

    filter_path(&mut path, target_goal);
    let actual = vec![
        (SectorID::new(2, 0), FieldCell::new(8, 9)),
        (SectorID::new(2, 1), FieldCell::new(6, 0)),
        (SectorID::new(2, 0), FieldCell::new(4, 9)),
        (SectorID::new(2, 1), FieldCell::new(2, 0)),
        (SectorID::new(2, 0), FieldCell::new(2, 1)), // gets switch to target_goal
    ];

    assert_eq!(actual, path);
}

#[test]
fn filter_single_step_route_is_the_goal() {
    let mut path = vec![(SectorID::new(1, 1), FieldCell::new(0, 4))];
    filter_path(&mut path, FieldCell::new(6, 6));
    assert_eq!(vec![(SectorID::new(1, 1), FieldCell::new(6, 6))], path);
}

// in an open field the line of sight reaches every cell, each costing its
// number of steps from the goal
#[test]
fn line_of_sight_costs_are_step_counts() {
    let cost_field = CostField::new_with_cost(1);
    let step = RouteStep::new(&SectorID::new(0, 0), 84, None);
    let field = IntegrationField::init(&cost_field, &step);
    for column in 0..10usize {
        for row in 0..10usize {
            let value = field.get_field_cell_value(FieldCell::new(column, row));
            if (column, row) == (4, 8) {
                assert_eq!(value, INT_BITS_GOAL);
            } else {
                let steps = (column as i32 - 4).abs() + (row as i32 - 8).abs();
                assert_eq!(value, steps as u32 | INT_BITS_LOS);
            }
        }
    }
    assert_eq!(field.get_field_cell_value(FieldCell::new(4, 7)), 1 | INT_BITS_LOS);
    assert_eq!(field.get_field_cell_value(FieldCell::new(0, 0)), 12 | INT_BITS_LOS);
    assert_eq!(field.get_field_cell_value(FieldCell::new(9, 0)), 13 | INT_BITS_LOS);
    assert!(field.get_los_corners().is_empty());
}
