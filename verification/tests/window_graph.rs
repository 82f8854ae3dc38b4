use bevy_flowfield_tiles_plugin::dimensions::MapDimensions;
use bevy_flowfield_tiles_plugin::fields::FieldCell;
use bevy_flowfield_tiles_plugin::fields::cell_graph::CellGraph;
use bevy_flowfield_tiles_plugin::fields::cost_field::CostField;
use bevy_flowfield_tiles_plugin::portal::window_graph::Portals;
use bevy_flowfield_tiles_plugin::sector_cost::SectorCostFields;
use bevy_flowfield_tiles_plugin::sectors::SectorID;
use bevy_flowfield_tiles_plugin::utilities::CompassDir;

// a world of 20 by 20 units split into sectors of 10 units
fn small_world() -> MapDimensions {
    MapDimensions::new(20, 20, 10)
}

#[test]
fn sector_portals() {
    let dimensions = small_world();
    let sector_costs = SectorCostFields::new(&dimensions);
    let portals = Portals::new(&sector_costs);
    // check for PortalWindow existence on boundaries
    let sector1 = SectorID::new(0, 0);
    let windows = portals.get_portals(&sector1).unwrap();
    assert!(0 == windows.get_windows_for_ordinal(&CompassDir::North).len());
    assert!(1 == windows.get_windows_for_ordinal(&CompassDir::East).len());
    assert!(1 == windows.get_windows_for_ordinal(&CompassDir::South).len());
    assert!(0 == windows.get_windows_for_ordinal(&CompassDir::West).len());
}

#[test]
fn default_node_edge_count() {
    let dimensions = small_world();
    let sector_costs = SectorCostFields::new(&dimensions);
    let portals = Portals::new(&sector_costs);
    let actual_node_count = 8;
    assert_eq!(actual_node_count, portals.get_node_count());
    let actual_edge_count = 8;
    assert_eq!(actual_edge_count, portals.get_edge_count());
}

#[test]
fn graph_counts_initial_wall() {
    let dimensions = small_world();
    let mut sector_costs = SectorCostFields::new(&dimensions);
    sector_costs.set_field_cost(&SectorID::new(1, 1), &FieldCell::new(0, 5), 255, &dimensions);
    let portals = Portals::new(&sector_costs);
    let actual_node_count = 10;
    assert_eq!(actual_node_count, portals.get_node_count());
    let actual_edge_count = 13;
    assert_eq!(actual_edge_count, portals.get_edge_count());
}

#[test]
fn remove_nodes() {
    let dimensions = small_world();
    let sector_costs = SectorCostFields::new(&dimensions);
    let mut portals = Portals::new(&sector_costs);
    portals.remove_sector_nodes_and_windows(&SectorID::new(0, 0));
    assert!(6 == portals.get_node_count());
    assert!(5 == portals.get_edge_count());
}

// generate portals, then update SectorCosts, then update portals
#[test]
fn graph_updated() {
    let dimensions = MapDimensions::new(40, 30, 10);
    let mut sector_costs = SectorCostFields::new(&dimensions);
    let mut portals = Portals::new(&sector_costs);
    sector_costs.set_field_cost(&SectorID::new(1, 1), &FieldCell::new(0, 5), 255, &dimensions);
    portals.update_portals(&SectorID::new(1, 1), &sector_costs);
    let actual_node_count = 36;
    assert_eq!(actual_node_count, portals.get_node_count());
    let actual_edge_count = 59;
    assert_eq!(actual_edge_count, portals.get_edge_count());
}

// updating every sector around a change gives the graph built from scratch
#[test]
fn updated_graph_matches_a_new_one() {
    let dimensions = MapDimensions::new(40, 30, 10);
    let mut sector_costs = SectorCostFields::new(&dimensions);
    let mut portals = Portals::new(&sector_costs);
    sector_costs.set_field_cost(&SectorID::new(2, 1), &FieldCell::new(9, 3), 255, &dimensions);
    sector_costs.set_field_cost(&SectorID::new(2, 1), &FieldCell::new(9, 4), 255, &dimensions);
    portals.update_portals(&SectorID::new(2, 1), &sector_costs);
    let rebuilt = Portals::new(&sector_costs);
    assert_eq!(rebuilt.get_node_count(), portals.get_node_count());
    assert_eq!(rebuilt.get_edge_count(), portals.get_edge_count());
    for column in 0..4 {
        for row in 0..3 {
            let id = SectorID::new(column, row);
            let a = portals.get_portals(&id).unwrap().get_all();
            let b = rebuilt.get_portals(&id).unwrap().get_all();
            assert_eq!(a, b);
        }
    }
}

#[test]
fn best_path() {
    let dimensions = MapDimensions::new(40, 30, 10);
    let sector_costs = SectorCostFields::new(&dimensions);
    let portals = Portals::new(&sector_costs);
    let source_sector = SectorID::new(0, 0);
    let source_cell = FieldCell::new(3, 4);
    let goal_sector = SectorID::new(3, 0);
    let goal_cell = FieldCell::new(5, 5);
    let path = portals.find_path(&source_sector, &source_cell, &goal_sector, &goal_cell, &sector_costs);
    let actual_len = 4;
    assert_eq!(actual_len, path.unwrap().len());
}

// the route of a path within one open sector is the goal alone
#[test]
fn path_within_one_sector() {
    let dimensions = MapDimensions::new(40, 30, 10);
    let sector_costs = SectorCostFields::new(&dimensions);
    let portals = Portals::new(&sector_costs);
    let sector = SectorID::new(1, 1);
    let path = portals
        .find_path(&sector, &FieldCell::new(0, 0), &sector, &FieldCell::new(9, 9), &sector_costs)
        .unwrap();
    assert_eq!(path.len(), 1);
    assert_eq!(*path[0].get_sector(), sector);
    assert_eq!(path[0].get_goal(), 99);
    assert!(path[0].portal().is_none());
}

// the route's steps leave each sector through a window and end at the goal
#[test]
fn path_steps_leave_through_windows() {
    let dimensions = MapDimensions::new(40, 30, 10);
    let sector_costs = SectorCostFields::new(&dimensions);
    let portals = Portals::new(&sector_costs);
    let path = portals
        .find_path(&SectorID::new(0, 0), &FieldCell::new(3, 4), &SectorID::new(3, 0), &FieldCell::new(5, 5), &sector_costs)
        .unwrap();
    assert_eq!(*path[0].get_sector(), SectorID::new(0, 0));
    let last = path.len() - 1;
    assert_eq!(*path[last].get_sector(), SectorID::new(3, 0));
    assert_eq!(path[last].get_goal(), 55);
    assert!(path[last].portal().is_none());
    for step in &path[0..last] {
        assert!(step.portal().is_some());
        let window = step.portal().unwrap();
        assert_eq!(step.get_goal(), window.get_midpoint().as_1d_index());
    }
}

// a goal walled off from every window of its sector cannot be reached
#[test]
fn walled_goal_has_no_path() {
    let dimensions = MapDimensions::new(40, 30, 10);
    let mut sector_costs = SectorCostFields::new(&dimensions);
    let goal_sector = SectorID::new(3, 0);
    // wall in the cell (5, 5)
    for (c, r) in [(4usize, 5usize), (6, 5), (5, 4), (5, 6)] {
        sector_costs.set_field_cost(&goal_sector, &FieldCell::new(c, r), 255, &dimensions);
    }
    let portals = Portals::new(&sector_costs);
    let path = portals.find_path(&SectorID::new(0, 0), &FieldCell::new(3, 4), &goal_sector, &FieldCell::new(5, 5), &sector_costs);
    assert!(path.is_none());
}

// windows of one sector are joined by the fewest steps between their midpoints
#[test]
fn cell_graph_distances() {
    let mut field = CostField::new_with_cost(1);
    let graph = CellGraph::new(&field);
    assert_eq!(graph.distance(FieldCell::new(0, 0), FieldCell::new(9, 9)), Some(18));
    assert_eq!(graph.distance(FieldCell::new(4, 4), FieldCell::new(4, 4)), Some(0));
    // a wall across the field
    for row in 0..10 {
        field.set_field_cell_value(255, FieldCell::new(5, row));
    }
    let walled = CellGraph::new(&field);
    assert_eq!(walled.distance(FieldCell::new(0, 0), FieldCell::new(9, 9)), None);
    assert_eq!(walled.distance(FieldCell::new(0, 0), FieldCell::new(4, 9)), Some(13));
}
