use bevy_flowfield_tiles_plugin::sectors::SectorID;
use bevy_flowfield_tiles_plugin::utilities::CompassDir;

#[test]
fn compass_dir_north() {
    let sector = SectorID::new(1, 1);
    let compass_dir = CompassDir::North;
    let steps = 1;

    let result = sector.get_in_compass_direction(&compass_dir, steps);
    let actual = SectorID::new(1, 0);

    assert_eq!(actual, result);
}

#[test]
fn compass_dir_east() {
    let sector = SectorID::new(1, 1);
    let compass_dir = CompassDir::East;
    let steps = 1;

    let result = sector.get_in_compass_direction(&compass_dir, steps);
    let actual = SectorID::new(2, 1);

    assert_eq!(actual, result);
}

#[test]
fn compass_dir_south() {
    let sector = SectorID::new(1, 1);
    let compass_dir = CompassDir::South;
    let steps = 1;

    let result = sector.get_in_compass_direction(&compass_dir, steps);
    let actual = SectorID::new(1, 2);

    assert_eq!(actual, result);
}

#[test]
fn compass_dir_west() {
    let sector = SectorID::new(1, 1);
    let compass_dir = CompassDir::West;
    let steps = 1;

    let result = sector.get_in_compass_direction(&compass_dir, steps);
    let actual = SectorID::new(0, 1);

    assert_eq!(actual, result);
}

#[test]
fn compass_dir_northeast() {
    let sector = SectorID::new(1, 1);
    let compass_dir = CompassDir::NorthEast;
    let steps = 1;

    let result = sector.get_in_compass_direction(&compass_dir, steps);
    let actual = SectorID::new(2, 0);

    assert_eq!(actual, result);
}

#[test]
fn compass_dir_southeast() {
    let sector = SectorID::new(1, 1);
    let compass_dir = CompassDir::SouthEast;
    let steps = 1;

    let result = sector.get_in_compass_direction(&compass_dir, steps);
    let actual = SectorID::new(2, 2);

    assert_eq!(actual, result);
}

#[test]
fn compass_dir_southwest() {
    let sector = SectorID::new(1, 1);
    let compass_dir = CompassDir::SouthWest;
    let steps = 1;

    let result = sector.get_in_compass_direction(&compass_dir, steps);
    let actual = SectorID::new(0, 2);

    assert_eq!(actual, result);
}

#[test]
fn compass_dir_northwest() {
    let sector = SectorID::new(1, 1);
    let compass_dir = CompassDir::NorthWest;
    let steps = 1;

    let result = sector.get_in_compass_direction(&compass_dir, steps);
    let actual = SectorID::new(0, 0);

    assert_eq!(actual, result);
}

#[test]
fn ordinal_dir_north() {
    let sector = SectorID::new(1, 1);
    let compass_dir = CompassDir::North;
    let steps = 1;

    let result = sector.get_in_compass_direction(&compass_dir, steps);
    let actual = SectorID::new(1, 0);

    assert_eq!(actual, result);
}

#[test]
fn ordinal_dir_east() {
    let sector = SectorID::new(1, 1);
    let compass_dir = CompassDir::East;
    let steps = 1;

    let result = sector.get_in_compass_direction(&compass_dir, steps);
    let actual = SectorID::new(2, 1);

    assert_eq!(actual, result);
}

#[test]
fn ordinal_dir_south() {
    let sector = SectorID::new(1, 1);
    let compass_dir = CompassDir::South;
    let steps = 1;

    let result = sector.get_in_compass_direction(&compass_dir, steps);
    let actual = SectorID::new(1, 2);

    assert_eq!(actual, result);
}

#[test]
fn ordinal_dir_west() {
    let sector = SectorID::new(1, 1);
    let compass_dir = CompassDir::West;
    let steps = 1;

    let result = sector.get_in_compass_direction(&compass_dir, steps);
    let actual = SectorID::new(0, 1);

    assert_eq!(actual, result);
}

#[test]
fn ordinal_dir_northeast() {
    let sector = SectorID::new(1, 1);
    let compass_dir = CompassDir::NorthEast;
    let steps = 1;

    let result = sector.get_in_compass_direction(&compass_dir, steps);
    let actual = SectorID::new(2, 0);

    assert_eq!(actual, result);
}

#[test]
fn ordinal_dir_southeast() {
    let sector = SectorID::new(1, 1);
    let compass_dir = CompassDir::SouthEast;
    let steps = 1;

    let result = sector.get_in_compass_direction(&compass_dir, steps);
    let actual = SectorID::new(2, 2);

    assert_eq!(actual, result);
}

#[test]
fn ordinal_dir_southwest() {
    let sector = SectorID::new(1, 1);
    let compass_dir = CompassDir::SouthWest;
    let steps = 1;

    let result = sector.get_in_compass_direction(&compass_dir, steps);
    let actual = SectorID::new(0, 2);

    assert_eq!(actual, result);
}

#[test]
fn ordinal_dir_northwest() {
    let sector = SectorID::new(1, 1);
    let compass_dir = CompassDir::NorthWest;
    let steps = 1;

    let result = sector.get_in_compass_direction(&compass_dir, steps);
    let actual = SectorID::new(0, 0);

    assert_eq!(actual, result);
}
