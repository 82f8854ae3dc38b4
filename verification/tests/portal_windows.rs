use bevy_flowfield_tiles_plugin::dimensions::MapDimensions;
use bevy_flowfield_tiles_plugin::fields::FieldCell;
use bevy_flowfield_tiles_plugin::portal::portals::walk_sector_boundary;
use bevy_flowfield_tiles_plugin::portal::{PortalWindow, Windows};
use bevy_flowfield_tiles_plugin::sector_cost::SectorCostFields;
use bevy_flowfield_tiles_plugin::sectors::SectorID;
use bevy_flowfield_tiles_plugin::utilities::CompassDir;

fn window(start: FieldCell, end: FieldCell, boundary: CompassDir) -> PortalWindow {
    PortalWindow::new(start, end, boundary)
}

#[test]
fn window_midpoint1() {
    let window = window(FieldCell::new(0, 3), FieldCell::new(0, 9), CompassDir::West);

    let actual = FieldCell::new(0, 6);
    let result = window.get_midpoint();
    assert_eq!(actual, result);
}

#[test]
fn window_midpoint2() {
    let window = window(FieldCell::new(9, 5), FieldCell::new(9, 7), CompassDir::East);

    let actual = FieldCell::new(9, 6);
    let result = window.get_midpoint();
    assert_eq!(actual, result);
}

#[test]
fn window_midpoint3() {
    let window = window(FieldCell::new(0, 3), FieldCell::new(0, 3), CompassDir::West);

    let actual = FieldCell::new(0, 3);
    let result = window.get_midpoint();
    assert_eq!(actual, result);
}

#[test]
fn windows_ordinal() {
    let north = vec![window(FieldCell::new(0, 0), FieldCell::new(5, 0), CompassDir::North)];
    let east = vec![window(FieldCell::new(9, 0), FieldCell::new(9, 4), CompassDir::East)];
    let south = vec![window(FieldCell::new(2, 9), FieldCell::new(7, 9), CompassDir::South)];
    let west = vec![window(FieldCell::new(0, 4), FieldCell::new(0, 8), CompassDir::West)];
    let mut windows = Windows::default();
    windows.add_window(north[0], &CompassDir::North);
    windows.add_window(east[0], &CompassDir::East);
    windows.add_window(south[0], &CompassDir::South);
    windows.add_window(west[0], &CompassDir::West);

    assert_eq!(north, *windows.get_windows_for_ordinal(&CompassDir::North));
    assert_eq!(east, *windows.get_windows_for_ordinal(&CompassDir::East));
    assert_eq!(south, *windows.get_windows_for_ordinal(&CompassDir::South));
    assert_eq!(west, *windows.get_windows_for_ordinal(&CompassDir::West));
}

#[test]
fn window_add() {
    let mut windows = Windows::default();
    windows.add_window(
        window(FieldCell::new(0, 0), FieldCell::new(5, 0), CompassDir::North),
        &CompassDir::North,
    );
    let new = window(FieldCell::new(7, 0), FieldCell::new(9, 0), CompassDir::North);
    windows.add_window(new, &CompassDir::North);

    let actual = vec![
        window(FieldCell::new(0, 0), FieldCell::new(5, 0), CompassDir::North),
        window(FieldCell::new(7, 0), FieldCell::new(9, 0), CompassDir::North),
    ];
    let result = windows.get_windows_for_ordinal(&CompassDir::North).clone();
    assert_eq!(actual, result);
}

#[test]
fn windows_removal() {
    let mut windows = Windows::default();
    windows.add_window(
        window(FieldCell::new(0, 0), FieldCell::new(5, 0), CompassDir::North),
        &CompassDir::North,
    );
    windows.add_window(
        window(FieldCell::new(9, 0), FieldCell::new(9, 4), CompassDir::East),
        &CompassDir::East,
    );
    windows.add_window(
        window(FieldCell::new(2, 9), FieldCell::new(7, 9), CompassDir::South),
        &CompassDir::South,
    );
    windows.add_window(
        window(FieldCell::new(0, 4), FieldCell::new(0, 8), CompassDir::West),
        &CompassDir::West,
    );
    let result = windows.remove_all();
    let actual = vec![
        window(FieldCell::new(0, 0), FieldCell::new(5, 0), CompassDir::North),
        window(FieldCell::new(9, 0), FieldCell::new(9, 4), CompassDir::East),
        window(FieldCell::new(2, 9), FieldCell::new(7, 9), CompassDir::South),
        window(FieldCell::new(0, 4), FieldCell::new(0, 8), CompassDir::West),
    ];
    assert_eq!(actual, result);
    assert!(windows.get_windows_for_ordinal(&CompassDir::North).is_empty());
    assert!(windows.get_all().is_empty());
}

#[test]
fn walk() {
    // a world 20 by 20 units with sectors of 10 units
    let dimensions = MapDimensions::new(20, 20, 10);
    let sector_costs = SectorCostFields::new(&dimensions);

    let origin_sector = SectorID::new(0, 0);
    let origin_field = sector_costs.get_scaled(&origin_sector).unwrap();

    let ordinal = &CompassDir::North;
    let north = walk_sector_boundary(&origin_sector, origin_field, &sector_costs, ordinal);
    assert!(north.is_none());

    let ordinal = &CompassDir::East;
    let east = walk_sector_boundary(&origin_sector, origin_field, &sector_costs, ordinal);
    assert!(1 == east.unwrap().len());

    let ordinal = &CompassDir::South;
    let south = walk_sector_boundary(&origin_sector, origin_field, &sector_costs, ordinal);
    assert!(1 == south.unwrap().len());

    let ordinal = &CompassDir::West;
    let west = walk_sector_boundary(&origin_sector, origin_field, &sector_costs, ordinal);
    assert!(west.is_none());
}

// walk a boundary where the CostField has an initial wall on the boundary, this
// should prove that multiple portals are initialised
#[test]
fn walk_initial_wall() {
    let dimensions = MapDimensions::new(20, 20, 10);
    let mut sector_costs = SectorCostFields::new(&dimensions);
    sector_costs.set_field_cost(&SectorID::new(0, 0), &FieldCell::new(9, 3), 255, &dimensions);

    let origin_sector = SectorID::new(0, 0);
    let origin_field = sector_costs.get_scaled(&origin_sector).unwrap();

    let ordinal = &CompassDir::East;
    let east = walk_sector_boundary(&origin_sector, origin_field, &sector_costs, ordinal);
    assert!(2 == east.unwrap().len());

    // ensure the neighbour without a wall registers
    // the same number of portals
    let n_sector = SectorID::new(1, 0);
    let n_field = sector_costs.get_scaled(&n_sector).unwrap();

    let n_ordinal = &CompassDir::West;
    let west = walk_sector_boundary(&n_sector, n_field, &sector_costs, n_ordinal);
    assert!(2 == west.unwrap().len());
}

#[test]
fn window_cells_cover_the_run() {
    let across = window(FieldCell::new(2, 9), FieldCell::new(5, 9), CompassDir::South);
    assert_eq!(vec![92, 93, 94, 95], across.get_all_window_cells());
    let down = window(FieldCell::new(0, 4), FieldCell::new(0, 6), CompassDir::West);
    assert_eq!(vec![40, 50, 60], down.get_all_window_cells());
    let single = window(FieldCell::new(9, 0), FieldCell::new(9, 0), CompassDir::North);
    assert_eq!(vec![9], single.get_all_window_cells());
    assert_eq!(CompassDir::North, *single.get_boundary());
}
