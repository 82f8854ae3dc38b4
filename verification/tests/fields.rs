use bevy_flowfield_tiles_plugin::fields::FieldCell;
use bevy_flowfield_tiles_plugin::fields::bresenham::{walk_bresenham_shallow, walk_bresenham_steep};
use bevy_flowfield_tiles_plugin::utilities::CompassDir;

#[test]
fn mod_to_index() {
    let cell = FieldCell::new(1, 1);
    let actual = 11;
    let result = cell.as_1d_index();
    assert_eq!(actual, result);
}

#[test]
fn mod_from_index() {
    let index = 12;
    let actual = FieldCell::new(2, 1);
    let result = FieldCell::from_index(index);
    assert_eq!(actual, result);
}

#[test]
fn compass_dir_north_valid() {
    let cell = FieldCell::new(0, 1);
    let actual = FieldCell::new(0, 0);
    let result = cell.get_in_compass_direction(&CompassDir::North, 1);
    assert_eq!(actual, result.unwrap());
}

#[test]
fn compass_dir_north_invalid() {
    let cell = FieldCell::new(0, 0);
    let result = cell.get_in_compass_direction(&CompassDir::North, 1);
    assert!(result.is_none())
}

#[test]
fn compass_dir_east_valid() {
    let cell = FieldCell::new(1, 1);
    let actual = FieldCell::new(2, 1);
    let result = cell.get_in_compass_direction(&CompassDir::East, 1);
    assert_eq!(actual, result.unwrap());
}

#[test]
fn compass_dir_east_invalid() {
    let cell = FieldCell::new(9, 0);
    let result = cell.get_in_compass_direction(&CompassDir::East, 1);
    assert!(result.is_none())
}

#[test]
fn compass_dir_south_valid() {
    let cell = FieldCell::new(1, 1);
    let actual = FieldCell::new(1, 2);
    let result = cell.get_in_compass_direction(&CompassDir::South, 1);
    assert_eq!(actual, result.unwrap());
}

#[test]
fn compass_dir_south_invalid() {
    let cell = FieldCell::new(0, 9);
    let result = cell.get_in_compass_direction(&CompassDir::South, 1);
    assert!(result.is_none())
}

#[test]
fn compass_dir_west_valid() {
    let cell = FieldCell::new(1, 1);
    let actual = FieldCell::new(0, 1);
    let result = cell.get_in_compass_direction(&CompassDir::West, 1);
    assert_eq!(actual, result.unwrap());
}

#[test]
fn compass_dir_west_invalid() {
    let cell = FieldCell::new(0, 0);
    let result = cell.get_in_compass_direction(&CompassDir::West, 1);
    assert!(result.is_none())
}

#[test]
fn compass_dir_northeast_valid() {
    let cell = FieldCell::new(1, 1);
    let actual = FieldCell::new(2, 0);
    let result = cell.get_in_compass_direction(&CompassDir::NorthEast, 1);
    assert_eq!(actual, result.unwrap());
}

#[test]
fn compass_dir_northeast_invalid() {
    let cell = FieldCell::new(0, 0);
    let result = cell.get_in_compass_direction(&CompassDir::NorthEast, 1);
    assert!(result.is_none())
}

#[test]
fn compass_dir_southeast_valid() {
    let cell = FieldCell::new(1, 1);
    let actual = FieldCell::new(2, 2);
    let result = cell.get_in_compass_direction(&CompassDir::SouthEast, 1);
    assert_eq!(actual, result.unwrap());
}

#[test]
fn compass_dir_southeast_invalid() {
    let cell = FieldCell::new(9, 9);
    let result = cell.get_in_compass_direction(&CompassDir::SouthEast, 1);
    assert!(result.is_none())
}

#[test]
fn compass_dir_southwest_valid() {
    let cell = FieldCell::new(1, 1);
    let actual = FieldCell::new(0, 2);
    let result = cell.get_in_compass_direction(&CompassDir::SouthWest, 1);
    assert_eq!(actual, result.unwrap());
}

#[test]
fn compass_dir_southwest_invalid() {
    let cell = FieldCell::new(0, 9);
    let result = cell.get_in_compass_direction(&CompassDir::SouthWest, 1);
    assert!(result.is_none())
}

#[test]
fn compass_dir_northwest_valid() {
    let cell = FieldCell::new(1, 1);
    let actual = FieldCell::new(0, 0);
    let result = cell.get_in_compass_direction(&CompassDir::NorthWest, 1);
    assert_eq!(actual, result.unwrap());
}

#[test]
fn compass_dir_northwest_invalid() {
    let cell = FieldCell::new(0, 0);
    let result = cell.get_in_compass_direction(&CompassDir::NorthWest, 1);
    assert!(result.is_none())
}

#[test]
fn mod_neighbours2() {
    let cell = FieldCell::new(9, 0);
    let actual = vec![FieldCell::new(9, 1), FieldCell::new(8, 0)];
    let result = cell.get_orthogonal_neighbours();
    assert_eq!(actual, result);
}

#[test]
fn mod_neighbours3() {
    let cell = FieldCell::new(0, 4);
    let actual = vec![
        FieldCell::new(0, 3),
        FieldCell::new(1, 4),
        FieldCell::new(0, 5),
    ];
    let result = cell.get_orthogonal_neighbours();
    assert_eq!(actual, result);
}

#[test]
fn mod_neighbours4() {
    let cell = FieldCell::new(4, 4);
    let actual = vec![
        FieldCell::new(4, 3),
        FieldCell::new(5, 4),
        FieldCell::new(4, 5),
        FieldCell::new(3, 4),
    ];
    let result = cell.get_orthogonal_neighbours();
    assert_eq!(actual, result);
}

#[test]
fn dir_from_to_north() {
    let this = FieldCell::new(3, 4);
    let other = FieldCell::new(3, 3);
    let result = this.dir_from_this_to_rhs(&other);
    let actual = CompassDir::North;
    assert_eq!(actual, result);
}
#[test]
fn dir_from_to_north_east() {
    let this = FieldCell::new(3, 4);
    let other = FieldCell::new(4, 3);
    let result = this.dir_from_this_to_rhs(&other);
    let actual = CompassDir::NorthEast;
    assert_eq!(actual, result);
}
#[test]
fn dir_from_to_east() {
    let this = FieldCell::new(3, 4);
    let other = FieldCell::new(4, 4);
    let result = this.dir_from_this_to_rhs(&other);
    let actual = CompassDir::East;
    assert_eq!(actual, result);
}
#[test]
fn dir_from_to_south_east() {
    let this = FieldCell::new(3, 4);
    let other = FieldCell::new(4, 5);
    let result = this.dir_from_this_to_rhs(&other);
    let actual = CompassDir::SouthEast;
    assert_eq!(actual, result);
}
#[test]
fn dir_from_to_south() {
    let this = FieldCell::new(3, 4);
    let other = FieldCell::new(3, 5);
    let result = this.dir_from_this_to_rhs(&other);
    let actual = CompassDir::South;
    assert_eq!(actual, result);
}
#[test]
fn dir_from_to_south_west() {
    let this = FieldCell::new(3, 4);
    let other = FieldCell::new(2, 5);
    let result = this.dir_from_this_to_rhs(&other);
    let actual = CompassDir::SouthWest;
    assert_eq!(actual, result);
}
#[test]
fn dir_from_to_north_west() {
    let this = FieldCell::new(3, 4);
    let other = FieldCell::new(2, 3);
    let result = this.dir_from_this_to_rhs(&other);
    let actual = CompassDir::NorthWest;
    assert_eq!(actual, result);
}
#[test]
fn dir_from_to_zero() {
    let this = FieldCell::new(3, 4);
    let other = FieldCell::new(3, 4);
    let result = this.dir_from_this_to_rhs(&other);
    let actual = CompassDir::Zero;
    assert_eq!(actual, result);
}

#[test]
fn ordinal_north_valid() {
    let cell = FieldCell::new(0, 1);
    let actual = FieldCell::new(0, 0);
    let result = cell.get_in_compass_direction(&CompassDir::North, 1);
    assert_eq!(actual, result.unwrap());
}

#[test]
fn ordinal_north_invalid() {
    let cell = FieldCell::new(0, 0);
    let result = cell.get_in_compass_direction(&CompassDir::North, 1);
    assert!(result.is_none())
}

#[test]
fn ordinal_east_valid() {
    let cell = FieldCell::new(1, 1);
    let actual = FieldCell::new(2, 1);
    let result = cell.get_in_compass_direction(&CompassDir::East, 1);
    assert_eq!(actual, result.unwrap());
}

#[test]
fn ordinal_east_invalid() {
    let cell = FieldCell::new(9, 0);
    let result = cell.get_in_compass_direction(&CompassDir::East, 1);
    assert!(result.is_none())
}

#[test]
fn ordinal_south_valid() {
    let cell = FieldCell::new(1, 1);
    let actual = FieldCell::new(1, 2);
    let result = cell.get_in_compass_direction(&CompassDir::South, 1);
    assert_eq!(actual, result.unwrap());
}

#[test]
fn ordinal_south_invalid() {
    let cell = FieldCell::new(0, 9);
    let result = cell.get_in_compass_direction(&CompassDir::South, 1);
    assert!(result.is_none())
}

#[test]
fn ordinal_west_valid() {
    let cell = FieldCell::new(1, 1);
    let actual = FieldCell::new(0, 1);
    let result = cell.get_in_compass_direction(&CompassDir::West, 1);
    assert_eq!(actual, result.unwrap());
}

#[test]
fn ordinal_west_invalid() {
    let cell = FieldCell::new(0, 0);
    let result = cell.get_in_compass_direction(&CompassDir::West, 1);
    assert!(result.is_none())
}

#[test]
fn ordinal_northeast_valid() {
    let cell = FieldCell::new(1, 1);
    let actual = FieldCell::new(2, 0);
    let result = cell.get_in_compass_direction(&CompassDir::NorthEast, 1);
    assert_eq!(actual, result.unwrap());
}

#[test]
fn ordinal_northeast_invalid() {
    let cell = FieldCell::new(0, 0);
    let result = cell.get_in_compass_direction(&CompassDir::NorthEast, 1);
    assert!(result.is_none())
}

#[test]
fn ordinal_southeast_valid() {
    let cell = FieldCell::new(1, 1);
    let actual = FieldCell::new(2, 2);
    let result = cell.get_in_compass_direction(&CompassDir::SouthEast, 1);
    assert_eq!(actual, result.unwrap());
}

#[test]
fn ordinal_southeast_invalid() {
    let cell = FieldCell::new(9, 9);
    let result = cell.get_in_compass_direction(&CompassDir::SouthEast, 1);
    assert!(result.is_none())
}

#[test]
fn ordinal_southwest_valid() {
    let cell = FieldCell::new(1, 1);
    let actual = FieldCell::new(0, 2);
    let result = cell.get_in_compass_direction(&CompassDir::SouthWest, 1);
    assert_eq!(actual, result.unwrap());
}

#[test]
fn ordinal_southwest_invalid() {
    let cell = FieldCell::new(0, 9);
    let result = cell.get_in_compass_direction(&CompassDir::SouthWest, 1);
    assert!(result.is_none())
}

#[test]
fn ordinal_northwest_valid() {
    let cell = FieldCell::new(1, 1);
    let actual = FieldCell::new(0, 0);
    let result = cell.get_in_compass_direction(&CompassDir::NorthWest, 1);
    assert_eq!(actual, result.unwrap());
}

#[test]
fn ordinal_northwest_invalid() {
    let cell = FieldCell::new(0, 0);
    let result = cell.get_in_compass_direction(&CompassDir::NorthWest, 1);
    assert!(result.is_none())
}

#[test]
fn shallow() {
    let source_col = 5;
    let source_row = 7;
    let target_col = 0;
    let target_row = 5;

    let result = if source_col > target_col {
        let mut fields = walk_bresenham_shallow(target_col, target_row, source_col, source_row);
        // ensure list points in the direction of source to target
        fields.reverse();
        fields
    } else {
        walk_bresenham_shallow(source_col, source_row, target_col, target_row)
    };
    let actual = vec![
        FieldCell::new(5, 7),
        FieldCell::new(4, 7),
        FieldCell::new(3, 6),
        FieldCell::new(2, 6),
        FieldCell::new(1, 5),
        FieldCell::new(0, 5),
    ];
    assert_eq!(actual, result);
}

#[test]
fn steep() {
    let source_col = 3;
    let source_row = 1;
    let target_col = 5;
    let target_row = 7;

    let result = if source_row > target_row {
        let mut fields = walk_bresenham_steep(target_col, target_row, source_col, source_row);
        fields.reverse();
        fields
    } else {
        walk_bresenham_steep(source_col, source_row, target_col, target_row)
    };
    let actual = vec![
        FieldCell::new(3, 1),
        FieldCell::new(3, 2),
        FieldCell::new(4, 3),
        FieldCell::new(4, 4),
        FieldCell::new(4, 5),
        FieldCell::new(5, 6),
        FieldCell::new(5, 7),
    ];
    assert_eq!(actual, result);
}

#[test]
fn cells_between_points_run_from_source_to_target() {
    let source = FieldCell::new(5, 7);
    let target = FieldCell::new(0, 5);
    let result = source.get_cells_between_points(&target);
    let actual = vec![
        FieldCell::new(5, 7),
        FieldCell::new(4, 7),
        FieldCell::new(3, 6),
        FieldCell::new(2, 6),
        FieldCell::new(1, 5),
        FieldCell::new(0, 5),
    ];
    assert_eq!(actual, result);
    let steep = FieldCell::new(3, 1).get_cells_between_points(&FieldCell::new(5, 7));
    assert_eq!(FieldCell::new(3, 1), steep[0]);
    assert_eq!(FieldCell::new(5, 7), *steep.last().unwrap());
    assert_eq!(7, steep.len());
    let single = source.get_cells_between_points(&source);
    assert_eq!(vec![source], single);
}

#[test]
fn index_round_trip() {
    for i in 0..100 {
        let cell = FieldCell::from_index(i);
        assert_eq!(i, cell.as_1d_index());
        assert_eq!((i % 10, i / 10), cell.get_column_row());
    }
}

#[test]
fn boundary_ordinals_of_cells() {
    assert_eq!(
        vec![CompassDir::North, CompassDir::West],
        FieldCell::new(0, 0).get_boundary_ordinal_from_field_cell()
    );
    assert_eq!(
        vec![CompassDir::East, CompassDir::South],
        FieldCell::new(9, 9).get_boundary_ordinal_from_field_cell()
    );
    assert_eq!(
        vec![CompassDir::North],
        FieldCell::new(4, 0).get_boundary_ordinal_from_field_cell()
    );
}

#[test]
fn steps_back_and_forth_return_to_start() {
    let cell = FieldCell::new(4, 6);
    let dirs = [
        CompassDir::North,
        CompassDir::NorthEast,
        CompassDir::East,
        CompassDir::SouthEast,
        CompassDir::South,
        CompassDir::SouthWest,
        CompassDir::West,
        CompassDir::NorthWest,
    ];
    for dir in dirs.iter() {
        let there = cell.get_in_compass_direction(dir, 3).unwrap();
        let back = there.get_in_compass_direction(&dir.inverse(), 3).unwrap();
        assert_eq!(cell, back);
        assert_eq!(*dir, cell.dir_from_this_to_rhs(&cell.get_in_compass_direction(dir, 1).unwrap()));
    }
}
