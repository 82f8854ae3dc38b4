use bevy_flowfield_tiles_plugin::fields::FieldCell;
use bevy_flowfield_tiles_plugin::sectors::SectorID;
use bevy_flowfield_tiles_plugin::utilities::{CompassDir, FIELD_RESOLUTION};


#[test]
fn sector_entry_ne1() {
    // pure diag into NE sector
    let source_cell = FieldCell::new(7, 2);
    let compass_dir = CompassDir::NorthEast;

    let (result_delta, result_cell) = compass_dir.get_sector_cell_entry(&source_cell);
    let actual_delta = SectorID::new(1, -1);
    let actual_cell = FieldCell::new(0, 9);

    assert_eq!(actual_delta, result_delta);
    assert_eq!(actual_cell, result_cell);
}
#[test]
fn sector_entry_ne2() {
    // into N sector
    let source_cell = FieldCell::new(2, 2);
    let compass_dir = CompassDir::NorthEast;

    let (result_delta, result_cell) = compass_dir.get_sector_cell_entry(&source_cell);
    let actual_delta = SectorID::new(0, -1);
    let actual_cell = FieldCell::new(5, 9);

    assert_eq!(actual_delta, result_delta);
    assert_eq!(actual_cell, result_cell);
}
#[test]
fn sector_entry_ne3() {
    // into E sector
    let source_cell = FieldCell::new(6, 8);
    let compass_dir = CompassDir::NorthEast;

    let (result_delta, result_cell) = compass_dir.get_sector_cell_entry(&source_cell);
    let actual_delta = SectorID::new(1, 0);
    let actual_cell = FieldCell::new(0, 4);

    assert_eq!(actual_delta, result_delta);
    assert_eq!(actual_cell, result_cell);
}
#[test]
fn sector_entry_se1() {
    // into SE sector
    let source_cell = FieldCell::new(5, 5);
    let compass_dir = CompassDir::SouthEast;

    let (result_delta, result_cell) = compass_dir.get_sector_cell_entry(&source_cell);
    let actual_delta = SectorID::new(1, 1);
    let actual_cell = FieldCell::new(0, 0);

    assert_eq!(actual_delta, result_delta);
    assert_eq!(actual_cell, result_cell);
}
#[test]
fn sector_entry_se2() {
    // into E sector
    let source_cell = FieldCell::new(8, 4);
    let compass_dir = CompassDir::SouthEast;

    let (result_delta, result_cell) = compass_dir.get_sector_cell_entry(&source_cell);
    let actual_delta = SectorID::new(1, 0);
    let actual_cell = FieldCell::new(0, 6);

    assert_eq!(actual_delta, result_delta);
    assert_eq!(actual_cell, result_cell);
}
#[test]
fn sector_entry_se3() {
    // into S sector
    let source_cell = FieldCell::new(1, 6);
    let compass_dir = CompassDir::SouthEast;

    let (result_delta, result_cell) = compass_dir.get_sector_cell_entry(&source_cell);
    let actual_delta = SectorID::new(0, 1);
    let actual_cell = FieldCell::new(5, 0);

    assert_eq!(actual_delta, result_delta);
    assert_eq!(actual_cell, result_cell);
}
#[test]
fn sector_entry_sw1() {
    // into SW sector
    let source_cell = FieldCell::new(5, 4);
    let compass_dir = CompassDir::SouthWest;

    let (result_delta, result_cell) = compass_dir.get_sector_cell_entry(&source_cell);
    let actual_delta = SectorID::new(-1, 1);
    let actual_cell = FieldCell::new(9, 0);

    assert_eq!(actual_delta, result_delta);
    assert_eq!(actual_cell, result_cell);
}
#[test]
fn sector_entry_sw2() {
    // into S sector
    let source_cell = FieldCell::new(5, 7);
    let compass_dir = CompassDir::SouthWest;

    let (result_delta, result_cell) = compass_dir.get_sector_cell_entry(&source_cell);
    let actual_delta = SectorID::new(0, 1);
    let actual_cell = FieldCell::new(2, 0);

    assert_eq!(actual_delta, result_delta);
    assert_eq!(actual_cell, result_cell);
}
#[test]
fn sector_entry_sw3() {
    // into W sector
    let source_cell = FieldCell::new(2, 3);
    let compass_dir = CompassDir::SouthWest;

    let (result_delta, result_cell) = compass_dir.get_sector_cell_entry(&source_cell);
    let actual_delta = SectorID::new(-1, 0);
    let actual_cell = FieldCell::new(9, 6);

    assert_eq!(actual_delta, result_delta);
    assert_eq!(actual_cell, result_cell);
}
#[test]
fn sector_entry_nw1() {
    // into NW sector
    let source_cell = FieldCell::new(3, 3);
    let compass_dir = CompassDir::NorthWest;

    let (result_delta, result_cell) = compass_dir.get_sector_cell_entry(&source_cell);
    let actual_delta = SectorID::new(-1, -1);
    let actual_cell = FieldCell::new(9, 9);

    assert_eq!(actual_delta, result_delta);
    assert_eq!(actual_cell, result_cell);
}
#[test]
fn sector_entry_nw2() {
    // into N sector
    let source_cell = FieldCell::new(5, 1);
    let compass_dir = CompassDir::NorthWest;

    let (result_delta, result_cell) = compass_dir.get_sector_cell_entry(&source_cell);
    let actual_delta = SectorID::new(0, -1);
    let actual_cell = FieldCell::new(3, 9);

    assert_eq!(actual_delta, result_delta);
    assert_eq!(actual_cell, result_cell);
}
#[test]
fn sector_entry_nw3() {
    // into W sector
    let source_cell = FieldCell::new(3, 6);
    let compass_dir = CompassDir::NorthWest;

    let (result_delta, result_cell) = compass_dir.get_sector_cell_entry(&source_cell);
    let actual_delta = SectorID::new(-1, 0);
    let actual_cell = FieldCell::new(9, 2);

    assert_eq!(actual_delta, result_delta);
    assert_eq!(actual_cell, result_cell);
}

#[test]
fn step_cell_n1() {
    // step cell in N dir
    let source_cell = FieldCell::new(3, 2);
    let compass_dir = CompassDir::North;
    let steps = 1;

    let actual_delta = SectorID::new(0, 0);
    let actual_cell = FieldCell::new(3, 1);
    let result = compass_dir.step_cell_in_direction(&source_cell, steps);
    assert_eq!((actual_delta, actual_cell), result);
}
#[test]
fn step_cell_n2() {
    // step cell in N dir
    let source_cell = FieldCell::new(3, 2);
    let compass_dir = CompassDir::North;
    let steps = 5;

    let actual_delta = SectorID::new(0, -1);
    let actual_cell = FieldCell::new(3, 7);
    let result = compass_dir.step_cell_in_direction(&source_cell, steps);
    assert_eq!((actual_delta, actual_cell), result);
}
#[test]
fn step_cell_n3() {
    // step cell in N dir
    let source_cell = FieldCell::new(3, 2);
    let compass_dir = CompassDir::North;
    let steps = 15;

    let actual_delta = SectorID::new(0, -2);
    let actual_cell = FieldCell::new(3, 7);
    let result = compass_dir.step_cell_in_direction(&source_cell, steps);
    assert_eq!((actual_delta, actual_cell), result);
}
#[test]
fn step_cell_e1() {
    // step cell in E dir
    let source_cell = FieldCell::new(3, 2);
    let compass_dir = CompassDir::East;
    let steps = 1;

    let actual_delta = SectorID::new(0, 0);
    let actual_cell = FieldCell::new(4, 2);
    let result = compass_dir.step_cell_in_direction(&source_cell, steps);
    assert_eq!((actual_delta, actual_cell), result);
}
#[test]
fn step_cell_e2() {
    // step cell in E dir
    let source_cell = FieldCell::new(3, 2);
    let compass_dir = CompassDir::East;
    let steps = 7;

    let actual_delta = SectorID::new(1, 0);
    let actual_cell = FieldCell::new(0, 2);
    let result = compass_dir.step_cell_in_direction(&source_cell, steps);
    assert_eq!((actual_delta, actual_cell), result);
}
#[test]
fn step_cell_e3() {
    // step cell in E dir
    let source_cell = FieldCell::new(3, 2);
    let compass_dir = CompassDir::East;
    let steps = 21;

    let actual_delta = SectorID::new(2, 0);
    let actual_cell = FieldCell::new(4, 2);
    let result = compass_dir.step_cell_in_direction(&source_cell, steps);
    assert_eq!((actual_delta, actual_cell), result);
}
#[test]
fn step_cell_s1() {
    // step cell in S dir
    let source_cell = FieldCell::new(3, 6);
    let compass_dir = CompassDir::South;
    let steps = 3;

    let actual_delta = SectorID::new(0, 0);
    let actual_cell = FieldCell::new(3, 9);
    let result = compass_dir.step_cell_in_direction(&source_cell, steps);
    assert_eq!((actual_delta, actual_cell), result);
}
#[test]
fn step_cell_s2() {
    // step cell in S dir
    let source_cell = FieldCell::new(3, 6);
    let compass_dir = CompassDir::South;
    let steps = 6;

    let actual_delta = SectorID::new(0, 1);
    let actual_cell = FieldCell::new(3, 2);
    let result = compass_dir.step_cell_in_direction(&source_cell, steps);
    assert_eq!((actual_delta, actual_cell), result);
}
#[test]
fn step_cell_s3() {
    // step cell in S dir
    let source_cell = FieldCell::new(3, 6);
    let compass_dir = CompassDir::South;
    let steps = 17;

    let actual_delta = SectorID::new(0, 2);
    let actual_cell = FieldCell::new(3, 3);
    let result = compass_dir.step_cell_in_direction(&source_cell, steps);
    assert_eq!((actual_delta, actual_cell), result);
}
#[test]
fn step_cell_w1() {
    // step cell in W dir
    let source_cell = FieldCell::new(3, 8);
    let compass_dir = CompassDir::West;
    let steps = 2;

    let actual_delta = SectorID::new(0, 0);
    let actual_cell = FieldCell::new(1, 8);
    let result = compass_dir.step_cell_in_direction(&source_cell, steps);
    assert_eq!((actual_delta, actual_cell), result);
}
#[test]
fn step_cell_w2() {
    // step cell in W dir
    let source_cell = FieldCell::new(3, 8);
    let compass_dir = CompassDir::West;
    let steps = 5;

    let actual_delta = SectorID::new(-1, 0);
    let actual_cell = FieldCell::new(8, 8);
    let result = compass_dir.step_cell_in_direction(&source_cell, steps);
    assert_eq!((actual_delta, actual_cell), result);
}
#[test]
fn step_cell_w3() {
    // step cell in W dir
    let source_cell = FieldCell::new(3, 8);
    let compass_dir = CompassDir::West;
    let steps = 18;

    let actual_delta = SectorID::new(-2, 0);
    let actual_cell = FieldCell::new(5, 8);
    let result = compass_dir.step_cell_in_direction(&source_cell, steps);
    assert_eq!((actual_delta, actual_cell), result);
}
#[test]
fn step_cell_ne1() {
    // step cell in NE dir
    let source_cell = FieldCell::new(9, 0);
    let compass_dir = CompassDir::NorthEast;
    let steps = 1;

    let actual_delta = SectorID::new(1, -1);
    let actual_cell = FieldCell::new(0, 9);
    let result = compass_dir.step_cell_in_direction(&source_cell, steps);
    assert_eq!((actual_delta, actual_cell), result);
}
#[test]
fn step_cell_ne2() {
    // step cell in NE dir
    let source_cell = FieldCell::new(6, 1);
    let compass_dir = CompassDir::NorthEast;
    let steps = 3;

    let actual_delta = SectorID::new(0, -1);
    let actual_cell = FieldCell::new(9, 8);
    let result = compass_dir.step_cell_in_direction(&source_cell, steps);
    assert_eq!((actual_delta, actual_cell), result);
}
#[test]
fn step_cell_ne3() {
    // step cell in NE dir
    let source_cell = FieldCell::new(8, 5);
    let compass_dir = CompassDir::NorthEast;
    let steps = 5;

    let actual_delta = SectorID::new(1, 0);
    let actual_cell = FieldCell::new(3, 0);
    let result = compass_dir.step_cell_in_direction(&source_cell, steps);
    assert_eq!((actual_delta, actual_cell), result);
}
#[test]
fn step_cell_ne4() {
    // step cell in NE dir
    let source_cell = FieldCell::new(8, 0);
    let compass_dir = CompassDir::NorthEast;
    let steps = 7;

    let actual_delta = SectorID::new(1, -1);
    let actual_cell = FieldCell::new(5, 3);
    let result = compass_dir.step_cell_in_direction(&source_cell, steps);
    assert_eq!((actual_delta, actual_cell), result);
}
#[test]
fn step_cell_se1() {
    // step cell in SE dir
    let source_cell = FieldCell::new(9, 9);
    let compass_dir = CompassDir::SouthEast;
    let steps = 1;

    let actual_delta = SectorID::new(1, 1);
    let actual_cell = FieldCell::new(0, 0);
    let result = compass_dir.step_cell_in_direction(&source_cell, steps);
    assert_eq!((actual_delta, actual_cell), result);
}
#[test]
fn step_cell_se2() {
    // step cell in SE dir
    let source_cell = FieldCell::new(8, 3);
    let compass_dir = CompassDir::SouthEast;
    let steps = 4;

    let actual_delta = SectorID::new(1, 0);
    let actual_cell = FieldCell::new(2, 7);
    let result = compass_dir.step_cell_in_direction(&source_cell, steps);
    assert_eq!((actual_delta, actual_cell), result);
}
#[test]
fn step_cell_se3() {
    // step cell in SE dir
    let source_cell = FieldCell::new(3, 8);
    let compass_dir = CompassDir::SouthEast;
    let steps = 3;

    let actual_delta = SectorID::new(0, 1);
    let actual_cell = FieldCell::new(6, 1);
    let result = compass_dir.step_cell_in_direction(&source_cell, steps);
    assert_eq!((actual_delta, actual_cell), result);
}
#[test]
fn step_cell_se4() {
    // step cell in SE dir
    let source_cell = FieldCell::new(4, 8);
    let compass_dir = CompassDir::SouthEast;
    let steps = 6;

    let actual_delta = SectorID::new(1, 1);
    let actual_cell = FieldCell::new(0, 4);
    let result = compass_dir.step_cell_in_direction(&source_cell, steps);
    assert_eq!((actual_delta, actual_cell), result);
}
#[test]
fn step_cell_sw1() {
    // step cell in SW dir
    let source_cell = FieldCell::new(0, 9);
    let compass_dir = CompassDir::SouthWest;
    let steps = 1;

    let actual_delta = SectorID::new(-1, 1);
    let actual_cell = FieldCell::new(9, 0);
    let result = compass_dir.step_cell_in_direction(&source_cell, steps);
    assert_eq!((actual_delta, actual_cell), result);
}
#[test]
fn step_cell_sw2() {
    // step cell in SW dir
    let source_cell = FieldCell::new(4, 8);
    let compass_dir = CompassDir::SouthWest;
    let steps = 3;

    let actual_delta = SectorID::new(0, 1);
    let actual_cell = FieldCell::new(1, 1);
    let result = compass_dir.step_cell_in_direction(&source_cell, steps);
    assert_eq!((actual_delta, actual_cell), result);
}
#[test]
fn step_cell_sw3() {
    // step cell in SW dir
    let source_cell = FieldCell::new(1, 4);
    let compass_dir = CompassDir::SouthWest;
    let steps = 5;

    let actual_delta = SectorID::new(-1, 0);
    let actual_cell = FieldCell::new(6, 9);
    let result = compass_dir.step_cell_in_direction(&source_cell, steps);
    assert_eq!((actual_delta, actual_cell), result);
}
#[test]
fn step_cell_sw4() {
    // step cell in SW dir
    let source_cell = FieldCell::new(3, 8);
    let compass_dir = CompassDir::SouthWest;
    let steps = 7;

    let actual_delta = SectorID::new(-1, 1);
    let actual_cell = FieldCell::new(6, 5);
    let result = compass_dir.step_cell_in_direction(&source_cell, steps);
    assert_eq!((actual_delta, actual_cell), result);
}
#[test]
fn step_cell_nw1() {
    // step cell in NW dir
    let source_cell = FieldCell::new(0, 0);
    let compass_dir = CompassDir::NorthWest;
    let steps = 1;

    let actual_delta = SectorID::new(-1, -1);
    let actual_cell = FieldCell::new(9, 9);
    let result = compass_dir.step_cell_in_direction(&source_cell, steps);
    assert_eq!((actual_delta, actual_cell), result);
}
#[test]
fn step_cell_nw2() {
    // step cell in NW dir
    let source_cell = FieldCell::new(6, 2);
    let compass_dir = CompassDir::NorthWest;
    let steps = 3;

    let actual_delta = SectorID::new(0, -1);
    let actual_cell = FieldCell::new(3, 9);
    let result = compass_dir.step_cell_in_direction(&source_cell, steps);
    assert_eq!((actual_delta, actual_cell), result);
}
#[test]
fn step_cell_nw3() {
    // step cell in NW dir
    let source_cell = FieldCell::new(2, 6);
    let compass_dir = CompassDir::NorthWest;
    let steps = 3;

    let actual_delta = SectorID::new(-1, 0);
    let actual_cell = FieldCell::new(9, 3);
    let result = compass_dir.step_cell_in_direction(&source_cell, steps);
    assert_eq!((actual_delta, actual_cell), result);
}
#[test]
fn step_cell_nw4() {
    // step cell in NW dir
    let source_cell = FieldCell::new(3, 2);
    let compass_dir = CompassDir::NorthWest;
    let steps = 7;

    let actual_delta = SectorID::new(-1, -1);
    let actual_cell = FieldCell::new(6, 5);
    let result = compass_dir.step_cell_in_direction(&source_cell, steps);
    assert_eq!((actual_delta, actual_cell), result);
}

#[test]
fn compass_dir_field_cell_neighbours() {
    let cell_id = FieldCell::new(0, 0);
    let result = CompassDir::get_orthogonal_cell_neighbours(cell_id);
    let actual = vec![FieldCell::new(1, 0), FieldCell::new(0, 1)];
    assert_eq!(actual, result);
}
#[test]
fn compass_dir_field_cell_neighbours2() {
    let cell_id = FieldCell::new(9, 9);
    let result = CompassDir::get_orthogonal_cell_neighbours(cell_id);
    let actual = vec![FieldCell::new(9, 8), FieldCell::new(8, 9)];
    assert_eq!(actual, result);
}
#[test]
fn compass_dir_field_cell_neighbours3() {
    let cell_id = FieldCell::new(4, 4);
    let result = CompassDir::get_orthogonal_cell_neighbours(cell_id);
    let actual = vec![
        FieldCell::new(4, 3),
        FieldCell::new(5, 4),
        FieldCell::new(4, 5),
        FieldCell::new(3, 4),
    ];
    assert_eq!(actual, result);
}
#[test]
fn compass_dir_field_cell_neighbours4() {
    let cell_id = FieldCell::new(5, 0);
    let result = CompassDir::get_orthogonal_cell_neighbours(cell_id);
    let actual = vec![
        FieldCell::new(6, 0),
        FieldCell::new(5, 1),
        FieldCell::new(4, 0),
    ];
    assert_eq!(actual, result);
}
#[test]
fn compass_dir_sector_neighbours() {
    let sector_id = SectorID::new(0, 0);
    let map_x_dimension: f32 = 300.0;
    let map_z_dimension: f32 = 550.0;
    let world_unit_size: f32 = 1.0;
    let columns = (map_x_dimension / (world_unit_size * FIELD_RESOLUTION as f32)) as i32;
    let rows = (map_z_dimension / (world_unit_size * FIELD_RESOLUTION as f32)) as i32;
    let result = CompassDir::get_sector_neighbours(&sector_id, columns, rows);
    let actual = vec![SectorID::new(1, 0), SectorID::new(0, 1)];
    assert_eq!(actual, result);
}
#[test]
fn compass_dir_sector_neighbours2() {
    let sector_id = SectorID::new(29, 54);
    let map_x_dimension: f32 = 300.0;
    let map_z_dimension: f32 = 550.0;
    let world_unit_size: f32 = 1.0;
    let columns = (map_x_dimension / (world_unit_size * FIELD_RESOLUTION as f32)) as i32;
    let rows = (map_z_dimension / (world_unit_size * FIELD_RESOLUTION as f32)) as i32;
    let result = CompassDir::get_sector_neighbours(&sector_id, columns, rows);
    let actual = vec![SectorID::new(29, 53), SectorID::new(28, 54)];
    assert_eq!(actual, result);
}
#[test]
fn compass_dir_sector_neighbours3() {
    let sector_id = SectorID::new(14, 31);
    let map_x_dimension: f32 = 300.0;
    let map_z_dimension: f32 = 550.0;
    let world_unit_size: f32 = 1.0;
    let columns = (map_x_dimension / (world_unit_size * FIELD_RESOLUTION as f32)) as i32;
    let rows = (map_z_dimension / (world_unit_size * FIELD_RESOLUTION as f32)) as i32;
    let result = CompassDir::get_sector_neighbours(&sector_id, columns, rows);
    let actual = vec![
        SectorID::new(14, 30),
        SectorID::new(15, 31),
        SectorID::new(14, 32),
        SectorID::new(13, 31),
    ];
    assert_eq!(actual, result);
}
#[test]
fn compass_dir_sector_neighbours4() {
    let sector_id = SectorID::new(0, 13);
    let map_x_dimension: f32 = 300.0;
    let map_z_dimension: f32 = 550.0;
    let world_unit_size: f32 = 1.0;
    let columns = (map_x_dimension / (world_unit_size * FIELD_RESOLUTION as f32)) as i32;
    let rows = (map_z_dimension / (world_unit_size * FIELD_RESOLUTION as f32)) as i32;
    let result = CompassDir::get_sector_neighbours(&sector_id, columns, rows);
    let actual = vec![
        SectorID::new(0, 12),
        SectorID::new(1, 13),
        SectorID::new(0, 14),
    ];
    assert_eq!(actual, result);
}
#[test]
fn get_northern_compass_dirs() {
    let sector_id = SectorID::new(3, 0);
    let map_x_dimension: f32 = 200.0;
    let map_z_dimension: f32 = 200.0;
    let world_unit_size: f32 = 1.0;
    let columns = (map_x_dimension / (world_unit_size * FIELD_RESOLUTION as f32)) as i32;
    let rows = (map_z_dimension / (world_unit_size * FIELD_RESOLUTION as f32)) as i32;
    let result = CompassDir::get_sector_portal_compass_dirs(&sector_id, columns, rows);
    let actual = vec![CompassDir::East, CompassDir::South, CompassDir::West];
    assert_eq!(actual, result);
}
#[test]
fn get_eastern_compass_dirs() {
    let sector_id = SectorID::new(19, 5);
    let map_x_dimension: f32 = 200.0;
    let map_z_dimension: f32 = 200.0;
    let world_unit_size: f32 = 1.0;
    let columns = (map_x_dimension / (world_unit_size * FIELD_RESOLUTION as f32)) as i32;
    let rows = (map_z_dimension / (world_unit_size * FIELD_RESOLUTION as f32)) as i32;
    let result = CompassDir::get_sector_portal_compass_dirs(&sector_id, columns, rows);
    let actual = vec![CompassDir::North, CompassDir::South, CompassDir::West];
    assert_eq!(actual, result);
}
#[test]
fn get_southern_compass_dirs() {
    let sector_id = SectorID::new(4, 19);
    let map_x_dimension: f32 = 200.0;
    let map_z_dimension: f32 = 200.0;
    let world_unit_size: f32 = 1.0;
    let columns = (map_x_dimension / (world_unit_size * FIELD_RESOLUTION as f32)) as i32;
    let rows = (map_z_dimension / (world_unit_size * FIELD_RESOLUTION as f32)) as i32;
    let result = CompassDir::get_sector_portal_compass_dirs(&sector_id, columns, rows);
    let actual = vec![CompassDir::North, CompassDir::East, CompassDir::West];
    assert_eq!(actual, result);
}
#[test]
fn get_western_compass_dirs() {
    let sector_id = SectorID::new(0, 5);
    let map_x_dimension: f32 = 200.0;
    let map_z_dimension: f32 = 200.0;
    let world_unit_size: f32 = 1.0;
    let columns = (map_x_dimension / (world_unit_size * FIELD_RESOLUTION as f32)) as i32;
    let rows = (map_z_dimension / (world_unit_size * FIELD_RESOLUTION as f32)) as i32;
    let result = CompassDir::get_sector_portal_compass_dirs(&sector_id, columns, rows);
    let actual = vec![CompassDir::North, CompassDir::East, CompassDir::South];
    assert_eq!(actual, result);
}
#[test]
fn get_centre_compass_dirs() {
    let sector_id = SectorID::new(4, 5);
    let map_x_dimension: f32 = 200.0;
    let map_z_dimension: f32 = 200.0;
    let world_unit_size: f32 = 1.0;
    let columns = (map_x_dimension / (world_unit_size * FIELD_RESOLUTION as f32)) as i32;
    let rows = (map_z_dimension / (world_unit_size * FIELD_RESOLUTION as f32)) as i32;
    let result = CompassDir::get_sector_portal_compass_dirs(&sector_id, columns, rows);
    let actual = vec![
        CompassDir::North,
        CompassDir::East,
        CompassDir::South,
        CompassDir::West,
    ];
    assert_eq!(actual, result);
}
#[test]
fn mod_cell_to_cell_north() {
    let target = FieldCell::new(6, 2);
    let source = FieldCell::new(6, 3);
    let result = CompassDir::cell_to_cell_direction(target, source);
    let actual = CompassDir::North;
    assert_eq!(actual, result);
}
#[test]
fn mod_cell_to_cell_north_east() {
    let target = FieldCell::new(7, 2);
    let source = FieldCell::new(6, 3);
    let result = CompassDir::cell_to_cell_direction(target, source);
    let actual = CompassDir::NorthEast;
    assert_eq!(actual, result);
}
#[test]
fn mod_cell_to_cell_east() {
    let target = FieldCell::new(6, 7);
    let source = FieldCell::new(5, 7);
    let result = CompassDir::cell_to_cell_direction(target, source);
    let actual = CompassDir::East;
    assert_eq!(actual, result);
}
#[test]
fn mod_cell_to_cell_south_east() {
    let target = FieldCell::new(5, 5);
    let source = FieldCell::new(4, 4);
    let result = CompassDir::cell_to_cell_direction(target, source);
    let actual = CompassDir::SouthEast;
    assert_eq!(actual, result);
}
#[test]
fn mod_cell_to_cell_south() {
    let target = FieldCell::new(3, 1);
    let source = FieldCell::new(3, 0);
    let result = CompassDir::cell_to_cell_direction(target, source);
    let actual = CompassDir::South;
    assert_eq!(actual, result);
}
#[test]
fn mod_cell_to_cell_south_west() {
    let target = FieldCell::new(6, 9);
    let source = FieldCell::new(7, 8);
    let result = CompassDir::cell_to_cell_direction(target, source);
    let actual = CompassDir::SouthWest;
    assert_eq!(actual, result);
}
#[test]
fn mod_cell_to_cell_west() {
    let target = FieldCell::new(5, 7);
    let source = FieldCell::new(6, 7);
    let result = CompassDir::cell_to_cell_direction(target, source);
    let actual = CompassDir::West;
    assert_eq!(actual, result);
}
#[test]
fn mod_cell_to_cell_north_west() {
    let target = FieldCell::new(0, 0);
    let source = FieldCell::new(1, 1);
    let result = CompassDir::cell_to_cell_direction(target, source);
    let actual = CompassDir::NorthWest;
    assert_eq!(actual, result);
}
#[test]
fn neighbours_with_compass_dir1() {
    let field = FieldCell::new(3, 4);
    let result = CompassDir::get_all_cell_neighbours_with_compass_dir(field);
    let actual = vec![
        (CompassDir::North, FieldCell::new(3, 3)),
        (CompassDir::East, FieldCell::new(4, 4)),
        (CompassDir::South, FieldCell::new(3, 5)),
        (CompassDir::West, FieldCell::new(2, 4)),
        (CompassDir::NorthEast, FieldCell::new(4, 3)),
        (CompassDir::SouthEast, FieldCell::new(4, 5)),
        (CompassDir::SouthWest, FieldCell::new(2, 5)),
        (CompassDir::NorthWest, FieldCell::new(2, 3)),
    ];
    assert_eq!(actual, result)
}
#[test]
fn neighbours_with_compass_dir2() {
    let field = FieldCell::new(0, 0);
    let result = CompassDir::get_all_cell_neighbours_with_compass_dir(field);
    let actual = vec![
        (CompassDir::East, FieldCell::new(1, 0)),
        (CompassDir::South, FieldCell::new(0, 1)),
        (CompassDir::SouthEast, FieldCell::new(1, 1)),
    ];
    assert_eq!(actual, result)
}
#[test]
fn sector_sector() {
    let source = SectorID::new(1, 1);

    let target = SectorID::new(1, 0);
    let actual = CompassDir::North;
    assert_eq!(
        actual,
        CompassDir::sector_to_sector_direction(&target, &source).unwrap()
    );

    let target = SectorID::new(2, 1);
    let actual = CompassDir::East;
    assert_eq!(
        actual,
        CompassDir::sector_to_sector_direction(&target, &source).unwrap()
    );

    let target = SectorID::new(1, 2);
    let actual = CompassDir::South;
    assert_eq!(
        actual,
        CompassDir::sector_to_sector_direction(&target, &source).unwrap()
    );

    let target = SectorID::new(0, 1);
    let actual = CompassDir::West;
    assert_eq!(
        actual,
        CompassDir::sector_to_sector_direction(&target, &source).unwrap()
    );

    let target = SectorID::new(2, 2);
    assert!(CompassDir::sector_to_sector_direction(&target, &source).is_none());
}

// stepping further than two sectors away lands in the right cell
#[test]
fn step_north_past_two_sectors() {
    let result = CompassDir::North.step_cell_in_direction(&FieldCell::new(0, 0), 21);
    assert_eq!(result, (SectorID::new(0, -3), FieldCell::new(0, 9)));
    let result = CompassDir::East.step_cell_in_direction(&FieldCell::new(9, 0), 25);
    assert_eq!(result, (SectorID::new(3, 0), FieldCell::new(4, 0)));
}
