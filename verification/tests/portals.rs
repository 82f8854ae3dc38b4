use bevy_flowfield_tiles_plugin::dimensions::MapDimensions;
use bevy_flowfield_tiles_plugin::fields::FieldCell;
use bevy_flowfield_tiles_plugin::portal::portals::Portals;
use bevy_flowfield_tiles_plugin::sector_cost::SectorCostFields;
use bevy_flowfield_tiles_plugin::sector_portals::SectorPortals;
use bevy_flowfield_tiles_plugin::sectors::SectorID;
use bevy_flowfield_tiles_plugin::utilities::CompassDir;

// portals of every sector of a 3 by 3 world
fn build_all(sector_cost_fields: &SectorCostFields, map_dimensions: &MapDimensions) -> SectorPortals {
    let mut sector_portals = SectorPortals::new(
        map_dimensions.get_length(),
        map_dimensions.get_depth(),
        map_dimensions.get_sector_resolution(),
    );
    for column in 0..3 {
        for row in 0..3 {
            sector_portals.update_portals(SectorID::new(column, row), sector_cost_fields, map_dimensions);
        }
    }
    sector_portals
}

#[test]
fn portals_top_left_sector() {
    let map_dimensions = MapDimensions::new(30, 30, 10);
    let mut sector_cost_fields = SectorCostFields::new(&map_dimensions);
    let sector_id = SectorID::new(0, 0);
        // switch some fields to impassable
    sector_cost_fields.set_field_cost(&sector_id, &FieldCell::new(9, 5), 255, &map_dimensions);
    sector_cost_fields.set_field_cost(&sector_id, &FieldCell::new(0, 9), 255, &map_dimensions);
    let mut portals = Portals::default();
    portals.recalculate_portals(&sector_cost_fields, &sector_id, &map_dimensions);
    let northern_side_portal_count = 0;
    let eastern_side_portal_count = 2;
    let southern_side_portal_count = 1;
    let western_side_portal_count = 0;
    assert_eq!(northern_side_portal_count, portals.get_portals_for_side(&CompassDir::North).len());
    assert_eq!(eastern_side_portal_count, portals.get_portals_for_side(&CompassDir::East).len());
    assert_eq!(southern_side_portal_count, portals.get_portals_for_side(&CompassDir::South).len());
    assert_eq!(western_side_portal_count, portals.get_portals_for_side(&CompassDir::West).len());
}

#[test]
fn portals_top_middle_sector() {
    let map_dimensions = MapDimensions::new(30, 30, 10);
    let mut sector_cost_fields = SectorCostFields::new(&map_dimensions);
    let sector_id = SectorID::new(1, 0);
        // switch some fields to impassable
    sector_cost_fields.set_field_cost(&sector_id, &FieldCell::new(9, 5), 255, &map_dimensions);
    sector_cost_fields.set_field_cost(&sector_id, &FieldCell::new(0, 9), 255, &map_dimensions);
    let mut portals = Portals::default();
    portals.recalculate_portals(&sector_cost_fields, &sector_id, &map_dimensions);
    let northern_side_portal_count = 0;
    let eastern_side_portal_count = 2;
    let southern_side_portal_count = 1;
    let western_side_portal_count = 1;
    assert_eq!(northern_side_portal_count, portals.get_portals_for_side(&CompassDir::North).len());
    assert_eq!(eastern_side_portal_count, portals.get_portals_for_side(&CompassDir::East).len());
    assert_eq!(southern_side_portal_count, portals.get_portals_for_side(&CompassDir::South).len());
    assert_eq!(western_side_portal_count, portals.get_portals_for_side(&CompassDir::West).len());
}

#[test]
fn portals_centre_sector() {
    let map_dimensions = MapDimensions::new(30, 30, 10);
    let mut sector_cost_fields = SectorCostFields::new(&map_dimensions);
    let sector_id = SectorID::new(1, 1);
        // switch some fields to impassable
    sector_cost_fields.set_field_cost(&sector_id, &FieldCell::new(9, 5), 255, &map_dimensions);
    sector_cost_fields.set_field_cost(&sector_id, &FieldCell::new(0, 9), 255, &map_dimensions);
    let mut portals = Portals::default();
    portals.recalculate_portals(&sector_cost_fields, &sector_id, &map_dimensions);
    let northern_side_portal_count = 1;
    let eastern_side_portal_count = 2;
    let southern_side_portal_count = 1;
    let western_side_portal_count = 1;
    assert_eq!(northern_side_portal_count, portals.get_portals_for_side(&CompassDir::North).len());
    assert_eq!(eastern_side_portal_count, portals.get_portals_for_side(&CompassDir::East).len());
    assert_eq!(southern_side_portal_count, portals.get_portals_for_side(&CompassDir::South).len());
    assert_eq!(western_side_portal_count, portals.get_portals_for_side(&CompassDir::West).len());
}

#[test]
fn portals_bottom_middle_sector() {
    let map_dimensions = MapDimensions::new(30, 30, 10);
    let mut sector_cost_fields = SectorCostFields::new(&map_dimensions);
    let sector_id = SectorID::new(1, 2);
        // switch some fields to impassable
    sector_cost_fields.set_field_cost(&sector_id, &FieldCell::new(4, 0), 255, &map_dimensions);
    sector_cost_fields.set_field_cost(&sector_id, &FieldCell::new(6, 0), 255, &map_dimensions);
    sector_cost_fields.set_field_cost(&sector_id, &FieldCell::new(9, 5), 255, &map_dimensions);
    sector_cost_fields.set_field_cost(&sector_id, &FieldCell::new(0, 9), 255, &map_dimensions);
    let mut portals = Portals::default();
    portals.recalculate_portals(&sector_cost_fields, &sector_id, &map_dimensions);
    let northern_side_portal_count = 3;
    let eastern_side_portal_count = 2;
    let southern_side_portal_count = 0;
    let western_side_portal_count = 1;
    assert_eq!(northern_side_portal_count, portals.get_portals_for_side(&CompassDir::North).len());
    assert_eq!(eastern_side_portal_count, portals.get_portals_for_side(&CompassDir::East).len());
    assert_eq!(southern_side_portal_count, portals.get_portals_for_side(&CompassDir::South).len());
    assert_eq!(western_side_portal_count, portals.get_portals_for_side(&CompassDir::West).len());
}

#[test]
fn verify_rebuilding() {
    let map_dimensions = MapDimensions::new(30, 30, 10);
    let mut sector_cost_fields = SectorCostFields::new(&map_dimensions);
    let mut sector_portals = build_all(&sector_cost_fields, &map_dimensions);
    
    // the current portals
    // _______________________________
    // |         |         |         |
    // |         |         |         |
    // |         P         P         |
    // |         |         |         |
    // |____P____|____P____|____P____|
    // |         |         |         |
    // |         |         |         |
    // |         P         P         |
    // |         |         |         |
    // |____P____|____P____|____P____|
    // |         |         |         |
    // |         |         |         |
    // |         P         P         |
    // |         |         |         |
    // |_________|_________|_________|
    let pre_first = sector_portals.get(&SectorID::new(0, 0)).unwrap().clone();
    let pre_second = sector_portals.get(&SectorID::new(0, 1)).unwrap().clone();
    println!("Pre update portals {:?}", pre_first);
    println!("Pre update portals {:?}", pre_second);
    // update the top-left CostFields and calculate new portals
    let mutated_sector_id = SectorID::new(0, 0);
    sector_cost_fields.set_field_cost(&mutated_sector_id, &FieldCell::new(4, 9), 255, &map_dimensions);
    sector_portals.update_portals(mutated_sector_id, &sector_cost_fields, &map_dimensions);

    let post_first = sector_portals.get(&mutated_sector_id).unwrap().clone();
    let post_second = sector_portals.get(&SectorID::new(0, 1)).unwrap().clone();
    println!("Updated portals {:?}", post_first);
    println!("Updated portals {:?}", post_second);
    // This produces a new representation with an extra portal, `x` denotes the impassable point
    // just inserted
    // _______________________________
    // |         |         |         |
    // |         |         |         |
    // |         P         P         |
    // |         |         |         |
    // |_P__x_P__|____P____|____P____|
    // |         |         |         |
    // |         |         |         |
    // |         P         P         |
    // |         |         |         |
    // |____P____|____P____|____P____|
    // |         |         |         |
    // |         |         |         |
    // |         P         P         |
    // |         |         |         |
    // |_________|_________|_________|

    // ensure new portals are correct
    let actual_first = [
        vec![],
        vec![FieldCell::new(9, 4)],
        vec![FieldCell::new(1, 9), FieldCell::new(7, 9)],
        vec![]
        ];
    let actual_second = [
        vec![FieldCell::new(1, 0), FieldCell::new(7, 0)],
        vec![FieldCell::new(9, 4)],
        vec![FieldCell::new(4, 9)],
        vec![]
        ];
    assert_eq!(actual_first[2], *post_first.get_portals_for_side(&CompassDir::South));
    assert_eq!(actual_second[0], *post_second.get_portals_for_side(&CompassDir::North));
}

#[test]
fn expand_portal_goals_north() {
    let map_dimensions = MapDimensions::new(30, 30, 10);
    let sector_cost_fields = SectorCostFields::new(&map_dimensions);
    let sector_portals = build_all(&sector_cost_fields, &map_dimensions);
    let sector_id = SectorID::new(1, 1);
    let portal_id = FieldCell::new(4, 0);
    let neighbour_sector_id = SectorID::new(1, 0);
    let goals = sector_portals.get(&sector_id).unwrap().expand_portal_into_goals(&sector_cost_fields, &sector_id, &portal_id, &neighbour_sector_id, &map_dimensions);

    let actual = vec![
        FieldCell::new(4, 0), FieldCell::new(3, 0), FieldCell::new(2, 0), FieldCell::new(1, 0), FieldCell::new(0, 0), FieldCell::new(5, 0), FieldCell::new(6, 0), FieldCell::new(7, 0), FieldCell::new(8, 0), FieldCell::new(9, 0)
        ];
    assert_eq!(actual, goals);
}

#[test]
fn expand_portal_goals_east() {
    let map_dimensions = MapDimensions::new(30, 30, 10);
    let sector_cost_fields = SectorCostFields::new(&map_dimensions);
    let sector_portals = build_all(&sector_cost_fields, &map_dimensions);
    let sector_id = SectorID::new(1, 1);
    let portal_id = FieldCell::new(9, 4);
    let neighbour_sector_id = SectorID::new(2, 1);
    let goals = sector_portals.get(&sector_id).unwrap().expand_portal_into_goals(&sector_cost_fields, &sector_id, &portal_id, &neighbour_sector_id, &map_dimensions);

    let actual = vec![
        FieldCell::new(9, 4), FieldCell::new(9, 3), FieldCell::new(9, 2), FieldCell::new(9, 1), FieldCell::new(9, 0), FieldCell::new(9, 5), FieldCell::new(9, 6),FieldCell::new (9, 7), FieldCell::new(9, 8), FieldCell::new(9, 9)
        ];
    assert_eq!(actual, goals);
}

#[test]
fn expand_portal_goals_south() {
    let map_dimensions = MapDimensions::new(30, 30, 10);
    let sector_cost_fields = SectorCostFields::new(&map_dimensions);
    let sector_portals = build_all(&sector_cost_fields, &map_dimensions);
    let sector_id = SectorID::new(1, 1);
    let portal_id = FieldCell::new(4, 9);
    let neighbour_sector_id = SectorID::new(1, 2);
    let goals = sector_portals.get(&sector_id).unwrap().expand_portal_into_goals(&sector_cost_fields, &sector_id, &portal_id, &neighbour_sector_id, &map_dimensions);

    let actual = vec![
        FieldCell::new(4, 9), FieldCell::new(3, 9), FieldCell::new(2, 9), FieldCell::new(1, 9), FieldCell::new(0, 9), FieldCell::new(5, 9), FieldCell::new(6, 9), FieldCell::new(7, 9), FieldCell::new(8, 9), FieldCell::new(9, 9)
        ];
    assert_eq!(actual, goals);
}

#[test]
fn expand_portal_goals_west() {
    let map_dimensions = MapDimensions::new(30, 30, 10);
    let sector_cost_fields = SectorCostFields::new(&map_dimensions);
    let sector_portals = build_all(&sector_cost_fields, &map_dimensions);
    let sector_id = SectorID::new(1, 1);
    let portal_id = FieldCell::new(0, 4);
    let neighbour_sector_id = SectorID::new(0, 1);
    let goals = sector_portals.get(&sector_id).unwrap().expand_portal_into_goals(&sector_cost_fields, &sector_id, &portal_id, &neighbour_sector_id, &map_dimensions);

    let actual = vec![
        FieldCell::new(0, 4), FieldCell::new(0, 3), FieldCell::new(0, 2), FieldCell::new(0, 1), FieldCell::new(0, 0), FieldCell::new(0, 5), FieldCell::new(0, 6), FieldCell::new(0, 7), FieldCell::new(0, 8), FieldCell::new(0, 9)
        ];
    assert_eq!(actual, goals);
}

#[test]
fn expand_portal_goals_short_local() {
    let map_dimensions = MapDimensions::new(30, 30, 10);
    let sector_id = SectorID::new(1, 1);
    let neighbour_sector_id = SectorID::new(1, 0);
    let mut sector_cost_fields = SectorCostFields::new(&map_dimensions);
    sector_cost_fields.set_field_cost(&sector_id, &FieldCell::new(3, 0), 255, &map_dimensions);

    let sector_portals = build_all(&sector_cost_fields, &map_dimensions);
    
    let portal_id = FieldCell::new(1, 0);
    let goals = sector_portals.get(&sector_id).unwrap().expand_portal_into_goals(&sector_cost_fields, &sector_id, &portal_id, &neighbour_sector_id, &map_dimensions);

    let actual = vec![
        FieldCell::new(1, 0), FieldCell::new(0, 0), FieldCell::new(2, 0)
        ];
    assert_eq!(actual, goals);
}

#[test]
fn expand_portal_goals_short_adjacent() {
    let map_dimensions = MapDimensions::new(30, 30, 10);
    let sector_id = SectorID::new(1, 1);
    let neighbour_sector_id = SectorID::new(1, 0);
    let mut sector_cost_fields = SectorCostFields::new(&map_dimensions);
    sector_cost_fields.set_field_cost(&neighbour_sector_id, &FieldCell::new(3, 9), 255, &map_dimensions);

    let sector_portals = build_all(&sector_cost_fields, &map_dimensions);
    
    let portal_id = FieldCell::new(1, 0);
    let goals = sector_portals.get(&sector_id).unwrap().expand_portal_into_goals(&sector_cost_fields, &sector_id, &portal_id, &neighbour_sector_id, &map_dimensions);

    let actual = vec![
        FieldCell::new(1, 0), FieldCell::new(0, 0), FieldCell::new(2, 0)
        ];
    assert_eq!(actual, goals);
}
