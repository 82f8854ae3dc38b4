use bevy_flowfield_tiles_plugin::dimensions::MapDimensions;
use bevy_flowfield_tiles_plugin::fields::cost_field::CostField;
use bevy_flowfield_tiles_plugin::fields::FieldCell;
use bevy_flowfield_tiles_plugin::fields::cell_graph::CellGraph;
use bevy_flowfield_tiles_plugin::sector_cost::{heightmap_pixel_cost, CostFieldUpdateItem, SectorCostFields};
use bevy_flowfield_tiles_plugin::sectors::SectorID;

// a world 20 by 20 units, sectors of 10 units, actors spanning 2 cells
fn scaled_world() -> MapDimensions {
    MapDimensions::new_with_actor_scale(20, 20, 10, 2)
}

// mutate a costs and ensure a gap between them is closed
#[test]
fn scale_one_field() {
    let dimensions = scaled_world();
    let mut sector_costs = SectorCostFields::new(&dimensions);
    // create a wall gap that should be filled in by scaling
    let mutate_sector = SectorID::new(0, 0);
    let mutate_cell1 = FieldCell::new(4, 4);
    let mutate_cell2 = FieldCell::new(6, 4);
    let cost = 255;
    sector_costs.set_field_cost(&mutate_sector, &mutate_cell1, cost, &dimensions);
    sector_costs.set_field_cost(&mutate_sector, &mutate_cell2, cost, &dimensions);

    let scaled_cell = FieldCell::new(5, 4);
    let result = sector_costs
        .get_scaled(&mutate_sector)
        .unwrap()
        .get_field_cell_value(scaled_cell);
    assert!(result == 255)
}

// scale across sector boundary to ensure gap is closed
#[test]
fn scale_across_fields1() {
    let dimensions = scaled_world();
    let mut sector_costs = SectorCostFields::new(&dimensions);
    // create a wall gap that should be filled in by scaling
    let mutate_sector1 = SectorID::new(0, 0);
    let mutate_cell1 = FieldCell::new(9, 3);
    let mutate_sector2 = SectorID::new(1, 0);
    let mutate_cell2 = FieldCell::new(1, 5);
    let cost = 255;
    sector_costs.set_field_cost(&mutate_sector1, &mutate_cell1, cost, &dimensions);
    sector_costs.set_field_cost(&mutate_sector2, &mutate_cell2, cost, &dimensions);

    let scaled_cell = FieldCell::new(0, 4);
    let result = sector_costs
        .get_scaled(&mutate_sector2)
        .unwrap()
        .get_field_cell_value(scaled_cell);
    assert!(result == 255)
}

#[test]
fn set_cost_changes_the_baseline_only_where_asked() {
    let dimensions = MapDimensions::new(30, 20, 10);
    let mut sector_costs = SectorCostFields::new(&dimensions);
    assert_eq!(3, sector_costs.get_column_count());
    assert_eq!(2, sector_costs.get_row_count());
    let sector = SectorID::new(2, 1);
    let cell = FieldCell::new(3, 8);
    sector_costs.set_field_cost(&sector, &cell, 7, &dimensions);
    let baseline = sector_costs.get_baseline(&sector).unwrap();
    assert_eq!(7, baseline.get_field_cell_value(cell));
    assert_eq!(1, baseline.get_field_cell_value(FieldCell::new(8, 3)));
    // with an actor of one cell scaling changes nothing
    assert_eq!(7, sector_costs.get_scaled(&sector).unwrap().get_field_cell_value(cell));
    assert_eq!(1, sector_costs.get_baseline(&SectorID::new(0, 0)).unwrap().get_field_cell_value(cell));
    assert!(sector_costs.get_baseline(&SectorID::new(3, 0)).is_none());
    assert!(sector_costs.get_scaled(&SectorID::new(-1, 0)).is_none());
}

#[test]
fn scaling_keeps_walls_and_leaves_wide_gaps_open() {
    let dimensions = scaled_world();
    let mut sector_costs = SectorCostFields::new(&dimensions);
    let sector = SectorID::new(0, 0);
    // a gap of two cells is wide enough for an actor of two cells
    sector_costs.set_field_cost(&sector, &FieldCell::new(2, 4), 255, &dimensions);
    sector_costs.set_field_cost(&sector, &FieldCell::new(5, 4), 255, &dimensions);
    let scaled = sector_costs.get_scaled(&sector).unwrap();
    assert_eq!(255, scaled.get_field_cell_value(FieldCell::new(2, 4)));
    assert_eq!(255, scaled.get_field_cell_value(FieldCell::new(5, 4)));
    assert_eq!(1, scaled.get_field_cell_value(FieldCell::new(3, 4)));
    assert_eq!(1, scaled.get_field_cell_value(FieldCell::new(4, 4)));
}

#[test]
fn new_with_cost_fills_every_sector() {
    let dimensions = MapDimensions::new(20, 30, 10);
    let sector_costs = SectorCostFields::new_with_cost(&dimensions, 6);
    for column in 0..2 {
        for row in 0..3 {
            let field = sector_costs.get_baseline(&SectorID::new(column, row)).unwrap();
            assert_eq!(6, field.get_field_cell_value(FieldCell::new(9, 0)));
        }
    }
}

#[test]
fn heightmap_pixel_costs() {
    assert_eq!(1, heightmap_pixel_cost(255, 255, 255));
    assert_eq!(255, heightmap_pixel_cost(0, 0, 0));
    // mean of 10, 20 and 40 rounds down to 23
    assert_eq!(232, heightmap_pixel_cost(10, 20, 40));
    assert_eq!(1, heightmap_pixel_cost(254, 255, 255));
}

#[test]
fn update_item_holds_what_it_was_given() {
    let item = CostFieldUpdateItem::new(&SectorID::new(1, 2), &FieldCell::new(3, 4), 200);
    assert_eq!(SectorID::new(1, 2), *item.sector());
    assert_eq!(FieldCell::new(3, 4), *item.cell());
    assert_eq!(200, item.cost());
}

// a heightmap read pixel by pixel: white is cheap, black impassable, and the
// scaled fields close gaps around the black pixels
#[test]
fn heightmap_pixels_fill_the_baseline() {
    let dimensions = scaled_world();
    let width: usize = 20;
    let height: usize = 20;
    let mut raw = vec![255u8; width * height * 4];
    // black pixel at x 13, y 4: sector (1, 0), cell (3, 4)
    let p = 4 * (4 * width + 13);
    raw[p] = 0;
    raw[p + 1] = 0;
    raw[p + 2] = 0;
    // grey pixel at x 0, y 19: sector (0, 1), cell (0, 9)
    let q = 4 * (19 * width);
    raw[q] = 100;
    raw[q + 1] = 101;
    raw[q + 2] = 102;
    let fields = SectorCostFields::from_heightmap_pixels(&dimensions, width, height, &raw);
    assert_eq!(fields.get_column_count(), 2);
    assert_eq!(fields.get_row_count(), 2);
    let black = fields.get_baseline(&SectorID::new(1, 0)).unwrap();
    assert_eq!(black.get_field_cell_value(FieldCell::new(3, 4)), 255);
    assert_eq!(black.get_field_cell_value(FieldCell::new(4, 4)), 1);
    let grey = fields.get_baseline(&SectorID::new(0, 1)).unwrap();
    assert_eq!(grey.get_field_cell_value(FieldCell::new(0, 9)), 154);
    assert_eq!(grey.get_field_cell_value(FieldCell::new(9, 0)), 1);
    // actors spanning 2 cells: the wall grows by one cell
    let scaled = fields.get_scaled(&SectorID::new(1, 0)).unwrap();
    assert_eq!(scaled.get_field_cell_value(FieldCell::new(3, 4)), 255);
    assert_eq!(scaled.get_field_cell_value(FieldCell::new(9, 9)), 1);
}

// saved baseline fields, listed column by column, are scaled on loading
#[test]
fn baseline_fields_are_scaled_on_loading() {
    let dimensions = MapDimensions::new_with_actor_scale(20, 10, 10, 2);
    let mut first = CostField::new_with_cost(1);
    first.set_field_cell_value(255, FieldCell::new(4, 4));
    first.set_field_cell_value(255, FieldCell::new(6, 4));
    let second = CostField::new_with_cost(3);
    let fields = SectorCostFields::from_baseline_fields(&dimensions, vec![first, second]);
    assert_eq!(fields.get_column_count(), 2);
    assert_eq!(fields.get_row_count(), 1);
    let base = fields.get_baseline(&SectorID::new(0, 0)).unwrap();
    assert_eq!(base.get_field_cell_value(FieldCell::new(5, 4)), 1);
    let scaled = fields.get_scaled(&SectorID::new(0, 0)).unwrap();
    assert_eq!(scaled.get_field_cell_value(FieldCell::new(5, 4)), 255);
    let other = fields.get_baseline(&SectorID::new(1, 0)).unwrap();
    assert_eq!(other.get_field_cell_value(FieldCell::new(0, 0)), 3);
    assert!(fields.get_baseline(&SectorID::new(0, 1)).is_none());
}

// find shortest path through a sector graph without modifying any costs
// (the graph gives the cost of the path, not its nodes)
#[test]
fn graph_path_unmodified() {
    let dimensions = MapDimensions::new_with_actor_scale(20, 20, 10, 1);
    let sector_costs = SectorCostFields::new(&dimensions);

    let sector = SectorID::new(0, 0);
    let start = FieldCell::new(0, 0);
    let end = FieldCell::new(9, 0);
    let graph = CellGraph::new(sector_costs.get_scaled(&sector).unwrap());

    let result_cost = graph.distance(start, end).unwrap();

    let actual_cost = 9;
    assert_eq!(actual_cost, result_cost);
}

// find shortest path through a sector graph with walls blocking direct path
#[test]
fn graph_path_modified() {
    let dimensions = MapDimensions::new_with_actor_scale(20, 20, 10, 1);
    let mut sector_costs = SectorCostFields::new(&dimensions);

    let sector = SectorID::new(0, 0);
    let mutate_cell = FieldCell::new(1, 0);
    sector_costs.set_field_cost(&sector, &mutate_cell, 255, &dimensions);

    let start = FieldCell::new(0, 0);
    let end = FieldCell::new(2, 0);
    let graph = CellGraph::new(sector_costs.get_scaled(&sector).unwrap());

    let result_cost = graph.distance(start, end).unwrap();

    // the path runs through cells 10, 11 and 12
    let actual_cost = 4;
    assert_eq!(actual_cost, result_cost);
    assert_eq!(graph.distance(start, FieldCell::new(0, 1)), Some(1));
    assert_eq!(graph.distance(start, FieldCell::new(1, 1)), Some(2));
    assert_eq!(graph.distance(start, FieldCell::new(2, 1)), Some(3));
}

// fail to find path where wall scaling has closed off a gap
#[test]
fn graph_path_scaled() {
    let dimensions = MapDimensions::new_with_actor_scale(20, 20, 10, 2);
    let mut sector_costs = SectorCostFields::new(&dimensions);

    let sector = SectorID::new(0, 0);
    // walls running north to south with small gap in the middle
    let mutates = [
        FieldCell::new(3, 0),
        FieldCell::new(3, 1),
        FieldCell::new(3, 2),
        FieldCell::new(3, 3),
        FieldCell::new(3, 4),
        FieldCell::new(3, 6),
        FieldCell::new(3, 7),
        FieldCell::new(3, 8),
        FieldCell::new(3, 9),
    ];
    // updating costs with walls should cause gap to close
    for cell in mutates.iter() {
        sector_costs.set_field_cost(&sector, cell, 255, &dimensions);
    }

    // cells 17 and 11
    let start = FieldCell::new(7, 1);
    let end = FieldCell::new(1, 1);
    let graph = CellGraph::new(sector_costs.get_scaled(&sector).unwrap());

    let result = graph.distance(start, end);

    assert!(result.is_none());
}

// ensure walls scale to world boundary when no more sectors in direction
#[test]
fn graph_scaled_world_boundary() {
    let dimensions = MapDimensions::new_with_actor_scale(20, 20, 10, 2);
    let mut sector_costs = SectorCostFields::new(&dimensions);

    let sector = SectorID::new(0, 0);
    let mutate = FieldCell::new(1, 1);
    // place wall just before corner so it should get scaled to the boundary
    sector_costs.set_field_cost(&sector, &mutate, 255, &dimensions);

    let blocked_cell1 = FieldCell::new(0, 1);
    let blocked_cell2 = FieldCell::new(1, 0);

    let blocked_cost1 = sector_costs.get_scaled(&sector).unwrap().get_field_cell_value(blocked_cell1);
    let blocked_cost2 = sector_costs.get_scaled(&sector).unwrap().get_field_cell_value(blocked_cell2);

    assert!(blocked_cost1 == 255);
    assert!(blocked_cost2 == 255);
}
