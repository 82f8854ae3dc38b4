use bevy_flowfield_tiles_plugin::dimensions::MapDimensions;
use bevy_flowfield_tiles_plugin::sectors::SectorID;
use bevy_flowfield_tiles_plugin::utilities::CompassDir;

#[test]
fn dimensions_get_northern_sector_neighbours() {
    // a world 200 by 200 units with sectors of 10 units
    let dimensions = MapDimensions::new(200, 200, 10);
    let sector_id = SectorID::new(4, 0);
    let result = dimensions.get_ids_of_neighbouring_sectors(&sector_id);
    let actual = vec![
        SectorID::new(5, 0),
        SectorID::new(4, 1),
        SectorID::new(3, 0),
    ];
    assert_eq!(actual, result);
}

#[test]
fn dimensions_get_eastern_sector_neighbours() {
    // a world 200 by 200 units with sectors of 10 units
    let dimensions = MapDimensions::new(200, 200, 10);
    let sector_id = SectorID::new(19, 3);
    let result = dimensions.get_ids_of_neighbouring_sectors(&sector_id);
    let actual = vec![
        SectorID::new(19, 2),
        SectorID::new(19, 4),
        SectorID::new(18, 3),
    ];
    assert_eq!(actual, result);
}

#[test]
fn dimensions_get_southern_sector_neighbours() {
    // a world 200 by 200 units with sectors of 10 units
    let dimensions = MapDimensions::new(200, 200, 10);
    let sector_id = SectorID::new(5, 19);
    let result = dimensions.get_ids_of_neighbouring_sectors(&sector_id);
    let actual = vec![
        SectorID::new(5, 18),
        SectorID::new(6, 19),
        SectorID::new(4, 19),
    ];
    assert_eq!(actual, result);
}

#[test]
fn dimensions_get_western_sector_neighbours() {
    // a world 200 by 200 units with sectors of 10 units
    let dimensions = MapDimensions::new(200, 200, 10);
    let sector_id = SectorID::new(0, 5);
    let result = dimensions.get_ids_of_neighbouring_sectors(&sector_id);
    let actual = vec![
        SectorID::new(0, 4),
        SectorID::new(1, 5),
        SectorID::new(0, 6),
    ];
    assert_eq!(actual, result);
}

#[test]
fn dimensions_get_centre_sector_neighbours() {
    // a world 200 by 200 units with sectors of 10 units
    let dimensions = MapDimensions::new(200, 200, 10);
    let sector_id = SectorID::new(5, 7);
    let result = dimensions.get_ids_of_neighbouring_sectors(&sector_id);
    let actual = vec![
        SectorID::new(5, 6),
        SectorID::new(6, 7),
        SectorID::new(5, 8),
        SectorID::new(4, 7),
    ];
    assert_eq!(actual, result);
}

#[test]
fn get_northern_sector_neighbours_with_direction() {
    // a world 200 by 200 units with sectors of 10 units
    let dimensions = MapDimensions::new(200, 200, 10);
    let sector_id = SectorID::new(4, 0);
    let result = dimensions.get_ordinal_and_ids_of_neighbouring_sectors(&sector_id);
    let actual = vec![
        (CompassDir::East, SectorID::new(5, 0)),
        (CompassDir::South, SectorID::new(4, 1)),
        (CompassDir::West, SectorID::new(3, 0)),
    ];
    assert_eq!(actual, result);
}

#[test]
fn get_eastern_sector_neighbours_with_direction() {
    // a world 200 by 200 units with sectors of 10 units
    let dimensions = MapDimensions::new(200, 200, 10);
    let sector_id = SectorID::new(19, 3);
    let result = dimensions.get_ordinal_and_ids_of_neighbouring_sectors(&sector_id);
    let actual = vec![
        (CompassDir::North, SectorID::new(19, 2)),
        (CompassDir::South, SectorID::new(19, 4)),
        (CompassDir::West, SectorID::new(18, 3)),
    ];
    assert_eq!(actual, result);
}

#[test]
fn get_southern_sector_neighbours_with_direction() {
    // a world 200 by 200 units with sectors of 10 units
    let dimensions = MapDimensions::new(200, 200, 10);
    let sector_id = SectorID::new(5, 19);
    let result = dimensions.get_ordinal_and_ids_of_neighbouring_sectors(&sector_id);
    let actual = vec![
        (CompassDir::North, SectorID::new(5, 18)),
        (CompassDir::East, SectorID::new(6, 19)),
        (CompassDir::West, SectorID::new(4, 19)),
    ];
    assert_eq!(actual, result);
}

#[test]
fn get_western_sector_neighbours_with_direction() {
    // a world 200 by 200 units with sectors of 10 units
    let dimensions = MapDimensions::new(200, 200, 10);
    let sector_id = SectorID::new(0, 5);
    let result = dimensions.get_ordinal_and_ids_of_neighbouring_sectors(&sector_id);
    let actual = vec![
        (CompassDir::North, SectorID::new(0, 4)),
        (CompassDir::East, SectorID::new(1, 5)),
        (CompassDir::South, SectorID::new(0, 6)),
    ];
    assert_eq!(actual, result);
}

#[test]
fn get_centre_sector_neighbours_with_direction() {
    // a world 200 by 200 units with sectors of 10 units
    let dimensions = MapDimensions::new(200, 200, 10);
    let sector_id = SectorID::new(5, 7);
    let result = dimensions.get_ordinal_and_ids_of_neighbouring_sectors(&sector_id);
    let actual = vec![
        (CompassDir::North, SectorID::new(5, 6)),
        (CompassDir::East, SectorID::new(6, 7)),
        (CompassDir::South, SectorID::new(5, 8)),
        (CompassDir::West, SectorID::new(4, 7)),
    ];
    assert_eq!(actual, result);
}

#[test]
fn sector_id_ordinal_north() {
    // a world 300 by 300 units with sectors of 10 units
    let dimensions = MapDimensions::new(300, 300, 10);
    let sector_id = SectorID::new(1, 1);
    let result = dimensions.get_sector_id_from_ordinal(CompassDir::North, &sector_id);
    let actual = SectorID::new(1, 0);
    assert_eq!(actual, result.unwrap());
}

#[test]
fn sector_id_ordinal_east() {
    // a world 300 by 300 units with sectors of 10 units
    let dimensions = MapDimensions::new(300, 300, 10);
    let sector_id = SectorID::new(1, 1);
    let result = dimensions.get_sector_id_from_ordinal(CompassDir::East, &sector_id);
    let actual = SectorID::new(2, 1);
    assert_eq!(actual, result.unwrap());
}

#[test]
fn sector_id_ordinal_south() {
    // a world 300 by 300 units with sectors of 10 units
    let dimensions = MapDimensions::new(300, 300, 10);
    let sector_id = SectorID::new(1, 1);
    let result = dimensions.get_sector_id_from_ordinal(CompassDir::South, &sector_id);
    let actual = SectorID::new(1, 2);
    assert_eq!(actual, result.unwrap());
}

#[test]
fn sector_id_ordinal_west() {
    // a world 300 by 300 units with sectors of 10 units
    let dimensions = MapDimensions::new(300, 300, 10);
    let sector_id = SectorID::new(1, 1);
    let result = dimensions.get_sector_id_from_ordinal(CompassDir::West, &sector_id);
    let actual = SectorID::new(0, 1);
    assert_eq!(actual, result.unwrap());
}

#[test]
fn sector_id_ordinal_northeast() {
    // a world 300 by 300 units with sectors of 10 units
    let dimensions = MapDimensions::new(300, 300, 10);
    let sector_id = SectorID::new(1, 1);
    let result = dimensions.get_sector_id_from_ordinal(CompassDir::NorthEast, &sector_id);
    let actual = SectorID::new(2, 0);
    assert_eq!(actual, result.unwrap());
}

#[test]
fn sector_id_ordinal_southeast() {
    // a world 300 by 300 units with sectors of 10 units
    let dimensions = MapDimensions::new(300, 300, 10);
    let sector_id = SectorID::new(1, 1);
    let result = dimensions.get_sector_id_from_ordinal(CompassDir::SouthEast, &sector_id);
    let actual = SectorID::new(2, 2);
    assert_eq!(actual, result.unwrap());
}

#[test]
fn sector_id_ordinal_southwest() {
    // a world 300 by 300 units with sectors of 10 units
    let dimensions = MapDimensions::new(300, 300, 10);
    let sector_id = SectorID::new(1, 1);
    let result = dimensions.get_sector_id_from_ordinal(CompassDir::SouthWest, &sector_id);
    let actual = SectorID::new(0, 2);
    assert_eq!(actual, result.unwrap());
}

#[test]
fn sector_id_ordinal_northwest() {
    // a world 300 by 300 units with sectors of 10 units
    let dimensions = MapDimensions::new(300, 300, 10);
    let sector_id = SectorID::new(1, 1);
    let result = dimensions.get_sector_id_from_ordinal(CompassDir::NorthWest, &sector_id);
    let actual = SectorID::new(0, 0);
    assert_eq!(actual, result.unwrap());
}

#[test]
fn sector_id_ordinal_oob() {
    // a world 300 by 300 units with sectors of 10 units
    let dimensions = MapDimensions::new(300, 300, 10);
    let sector_id = SectorID::new(1, 0);
    let result = dimensions.get_sector_id_from_ordinal(CompassDir::North, &sector_id);
    assert!(result.is_none())
}
