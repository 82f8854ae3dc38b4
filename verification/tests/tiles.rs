use bevy_flowfield_tiles_plugin::dimensions::MapDimensions;
use bevy_flowfield_tiles_plugin::fields::FieldCell;
use bevy_flowfield_tiles_plugin::route::RouteStep;
use bevy_flowfield_tiles_plugin::sectors::SectorID;
use bevy_flowfield_tiles_plugin::tiles::FlowFieldTiles;

// a new world holds the portals its costs give and no flow field yet
#[test]
fn new_tiles_hold_portals_and_an_empty_cache() {
    let tiles = FlowFieldTiles::new(MapDimensions::new(20, 20, 10));
    assert_eq!(tiles.get_dimensions().get_length(), 20);
    assert_eq!(tiles.get_portals().get_node_count(), 8);
    assert_eq!(tiles.get_portals().get_edge_count(), 8);
    let step = RouteStep::new(&SectorID::new(0, 0), 0, None);
    assert!(tiles.read_flowfield(&step).is_none());
    assert_eq!(tiles.flowfield_cache().len(), 0);
}

// every cell starts with the given cost
#[test]
fn new_tiles_with_cost() {
    let tiles = FlowFieldTiles::new_with_cost(MapDimensions::new(30, 30, 10), 7);
    let field = tiles.get_sector_cost_fields().get_baseline(&SectorID::new(2, 1)).unwrap();
    assert_eq!(field.get_field_cell_value(FieldCell::new(3, 3)), 7);
    assert_eq!(tiles.get_sector_cost_fields().get_column_count(), 3);
}
