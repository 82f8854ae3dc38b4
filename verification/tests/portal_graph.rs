use bevy_flowfield_tiles_plugin::dimensions::MapDimensions;
use bevy_flowfield_tiles_plugin::fields::FieldCell;
use bevy_flowfield_tiles_plugin::portal::portal_graph::{Direction, PortalGraph, PortalNode};
use bevy_flowfield_tiles_plugin::sector_cost::SectorCostFields;
use bevy_flowfield_tiles_plugin::sector_portals::SectorPortals;
use bevy_flowfield_tiles_plugin::sectors::SectorID;
use bevy_flowfield_tiles_plugin::utilities::CompassDir;

// the portals of every sector of a world
fn build_portals(sector_cost_fields: &SectorCostFields, map_dimensions: &MapDimensions) -> SectorPortals {
    let mut sector_portals = SectorPortals::new(
        map_dimensions.get_length(),
        map_dimensions.get_depth(),
        map_dimensions.get_sector_resolution(),
    );
    for column in 0..sector_cost_fields.get_column_count() as i32 {
        for row in 0..sector_cost_fields.get_row_count() as i32 {
            sector_portals.update_portals(SectorID::new(column, row), sector_cost_fields, map_dimensions);
        }
    }
    sector_portals
}

fn count_edges(graph: &PortalGraph, direction: Direction) -> usize {
    graph.get_edges().iter().filter(|e| e.direction == direction).count()
}

#[test]
fn portal_graph_node_count() {
    let map_dimensions = MapDimensions::new(30, 30, 10);
    let sector_cost_fields = SectorCostFields::new(&map_dimensions);
    let sector_portals = build_portals(&sector_cost_fields, &map_dimensions);
    let graph = PortalGraph::new(&sector_portals, &sector_cost_fields, &map_dimensions);
    let result = graph.get_node_count();

    let portal_count = 24; // sum of portals for each sector in the 3x3 sector grid
    let actual = portal_count;
    assert_eq!(actual, result);
}

#[test]
fn portal_graph_basic_sector_edge_count() {
    let map_dimensions = MapDimensions::new(30, 30, 10);
    let sector_cost_fields = SectorCostFields::new(&map_dimensions);
    let sector_portals = build_portals(&sector_cost_fields, &map_dimensions);
    let portal_graph = PortalGraph::new(&sector_portals, &sector_cost_fields, &map_dimensions);
    let result = count_edges(&portal_graph, Direction::Internal);

    let portal_to_portal_count = 44;
    let actual = portal_to_portal_count;
    assert_eq!(actual, result);
}

#[test]
fn portal_graph_basic_node_count() {
    let map_dimensions = MapDimensions::new(30, 30, 10);
    let sector_cost_fields = SectorCostFields::new(&map_dimensions);
    let sector_portals = build_portals(&sector_cost_fields, &map_dimensions);
    let portal_graph = PortalGraph::new(&sector_portals, &sector_cost_fields, &map_dimensions);
    let result = portal_graph.get_edge_count();

    let portal_to_portal_count = 44;
    let sector_to_sector_count = 24;
    let actual = portal_to_portal_count + sector_to_sector_count;
    assert_eq!(actual, result);
}

#[test]
fn update_graph_from_portals_change_node_count() {
    let map_dimensions = MapDimensions::new(30, 30, 10);
    let mut sector_cost_fields = SectorCostFields::new(&map_dimensions);
    let mut sector_portals = build_portals(&sector_cost_fields, &map_dimensions);
    let mut portal_graph = PortalGraph::new(&sector_portals, &sector_cost_fields, &map_dimensions);

    let mutated_sector_id = SectorID::new(0, 0);
    sector_cost_fields.set_field_cost(&mutated_sector_id, &FieldCell::new(4, 9), 255, &map_dimensions);
    sector_portals.update_portals(mutated_sector_id, &sector_cost_fields, &map_dimensions);

    portal_graph.update_graph(mutated_sector_id, &sector_portals, &sector_cost_fields, &map_dimensions);
    let result = portal_graph.get_node_count();
    let actual_nodes = 26;
    assert_eq!(actual_nodes, result);
}

#[test]
fn portal_graph_node_edges_best_path_as_sector_portals() {
    let map_dimensions = MapDimensions::new(30, 30, 10);
    let sector_cost_fields = SectorCostFields::new(&map_dimensions);
    let sector_portals = build_portals(&sector_cost_fields, &map_dimensions);
    let portal_graph = PortalGraph::new(&sector_portals, &sector_cost_fields, &map_dimensions);

    let source_sector = SectorID::new(0, 0);
    let source_field = FieldCell::new(4, 9);
    let source_weight =
        sector_cost_fields.get_scaled(&source_sector).unwrap().get_field_cell_value(source_field) as i32;
    let source_portal_node = PortalNode::new(source_sector, source_field, source_weight);

    let target_sector = SectorID::new(0, 2);
    let target_field = FieldCell::new(4, 0);
    let target_weight =
        sector_cost_fields.get_scaled(&target_sector).unwrap().get_field_cell_value(target_field) as i32;
    let target_portal_node = PortalNode::new(target_sector, target_field, target_weight);

    let path = portal_graph
        .find_path_between_sector_portals(source_portal_node, target_portal_node)
        .unwrap();
    let actual = vec![
        (SectorID::new(0, 0), FieldCell::new(4, 9)),
        (SectorID::new(0, 1), FieldCell::new(4, 0)),
        (SectorID::new(0, 1), FieldCell::new(4, 9)),
        (SectorID::new(0, 2), FieldCell::new(4, 0)),
    ];

    assert_eq!(actual, path.1);
}

#[test]
fn portal_graph_best_path_as_sector_portals() {
    let map_dimensions = MapDimensions::new(30, 30, 10);
    let sector_cost_fields = SectorCostFields::new(&map_dimensions);
    let sector_portals = build_portals(&sector_cost_fields, &map_dimensions);
    let portal_graph = PortalGraph::new(&sector_portals, &sector_cost_fields, &map_dimensions);

    let source_sector = SectorID::new(0, 0);
    let source_field = FieldCell::new(4, 9);
    let source_weight =
        sector_cost_fields.get_scaled(&source_sector).unwrap().get_field_cell_value(source_field) as i32;
    let source_portal_node = PortalNode::new(source_sector, source_field, source_weight);

    let target_sector = SectorID::new(0, 2);
    let target_field = FieldCell::new(4, 0);
    let target_weight =
        sector_cost_fields.get_scaled(&target_sector).unwrap().get_field_cell_value(target_field) as i32;
    let target_portal_node = PortalNode::new(target_sector, target_field, target_weight);

    let path = portal_graph
        .find_path_between_sector_portals(source_portal_node, target_portal_node)
        .unwrap();
    let actual = vec![
        (SectorID::new(0, 0), FieldCell::new(4, 9)),
        (SectorID::new(0, 1), FieldCell::new(4, 0)),
        (SectorID::new(0, 1), FieldCell::new(4, 9)),
        (SectorID::new(0, 2), FieldCell::new(4, 0)),
    ];

    assert_eq!(actual, path.1);
}

#[test]
fn path_score_counts_distances_and_weight() {
    let map_dimensions = MapDimensions::new(30, 30, 10);
    let sector_cost_fields = SectorCostFields::new(&map_dimensions);
    let sector_portals = build_portals(&sector_cost_fields, &map_dimensions);
    let portal_graph = PortalGraph::new(&sector_portals, &sector_cost_fields, &map_dimensions);
    let source = PortalNode::new(SectorID::new(0, 0), FieldCell::new(4, 9), 1);
    let target = PortalNode::new(SectorID::new(0, 2), FieldCell::new(4, 0), 1);
    let (score, _) = portal_graph.find_path_between_sector_portals(source, target).unwrap();
    // two boundary crossings of 5 and one walk of 9 steps down the middle
    // sector, ending on a cell of cost 1
    assert_eq!(5 + 9 + 5 + 1, score);
    // a portal is its own path
    let (score, route) = portal_graph.find_path_between_sector_portals(source, source).unwrap();
    assert_eq!(1, score);
    assert_eq!(vec![(SectorID::new(0, 0), FieldCell::new(4, 9))], route);
}

#[test]
fn best_path_across_the_world() {
    let map_dimensions = MapDimensions::new(30, 30, 10);
    let sector_cost_fields = SectorCostFields::new(&map_dimensions);
    let sector_portals = build_portals(&sector_cost_fields, &map_dimensions);
    let portal_graph = PortalGraph::new(&sector_portals, &sector_cost_fields, &map_dimensions);
    let source = (SectorID::new(0, 0), FieldCell::new(2, 2));
    let target = (SectorID::new(2, 2), FieldCell::new(7, 7));
    let route = portal_graph
        .find_best_path(source, target, &sector_portals, &sector_cost_fields)
        .unwrap();
    assert_eq!(SectorID::new(0, 0), route[0].0);
    assert_eq!(SectorID::new(2, 2), route.last().unwrap().0);
    // four boundaries are crossed, each from a portal to the one facing it
    assert_eq!(8, route.len());
}

#[test]
fn best_path_none_from_boxed_in_cell() {
    let map_dimensions = MapDimensions::new(20, 20, 10);
    let mut sector_cost_fields = SectorCostFields::new(&map_dimensions);
    let sector = SectorID::new(0, 0);
    for cell in [FieldCell::new(4, 5), FieldCell::new(6, 5), FieldCell::new(5, 4), FieldCell::new(5, 6)] {
        sector_cost_fields.set_field_cost(&sector, &cell, 255, &map_dimensions);
    }
    let sector_portals = build_portals(&sector_cost_fields, &map_dimensions);
    let portal_graph = PortalGraph::new(&sector_portals, &sector_cost_fields, &map_dimensions);
    let route = portal_graph.find_best_path(
        (sector, FieldCell::new(5, 5)),
        (SectorID::new(1, 1), FieldCell::new(5, 5)),
        &sector_portals,
        &sector_cost_fields,
    );
    assert!(route.is_none());
}

#[test]
fn edges_are_two_way() {
    let map_dimensions = MapDimensions::new(30, 20, 10);
    let sector_cost_fields = SectorCostFields::new(&map_dimensions);
    let sector_portals = build_portals(&sector_cost_fields, &map_dimensions);
    let graph = PortalGraph::new(&sector_portals, &sector_cost_fields, &map_dimensions);
    for e in graph.get_edges().iter() {
        assert!(graph.get_edges().iter().any(|b| b.source_node.sector_id == e.target_node.sector_id
            && b.source_node.portal_cell == e.target_node.portal_cell
            && b.target_node.sector_id == e.source_node.sector_id
            && b.target_node.portal_cell == e.source_node.portal_cell
            && b.direction == e.direction));
    }
}

#[test]
fn node_count_default() {
    let map_dimensions = MapDimensions::new(30, 30, 10);
    let sector_cost_fields = SectorCostFields::new(&map_dimensions);
    let sector_portals = build_portals(&sector_cost_fields, &map_dimensions);
    let graph = PortalGraph::new(&sector_portals, &sector_cost_fields, &map_dimensions);
    let result = graph.get_nodes().len();

    let actual = 24; // sum of portals for each sector in the 3x3 sector grid
    assert_eq!(actual, result);
}

#[test]
fn edge_count_internal_only() {
    let map_dimensions = MapDimensions::new(30, 30, 10);
    let sector_cost_fields = SectorCostFields::new(&map_dimensions);
    let sector_portals = build_portals(&sector_cost_fields, &map_dimensions);
    let graph = PortalGraph::new(&sector_portals, &sector_cost_fields, &map_dimensions);
    let result = count_edges(&graph, Direction::Internal);

    let actual = 44; // sum of internal edges across all sectors
    assert_eq!(actual, result);
}

#[test]
fn edge_count_default() {
    let map_dimensions = MapDimensions::new(30, 30, 10);
    let sector_cost_fields = SectorCostFields::new(&map_dimensions);
    let sector_portals = build_portals(&sector_cost_fields, &map_dimensions);
    let graph = PortalGraph::new(&sector_portals, &sector_cost_fields, &map_dimensions);
    let result = graph.get_edges().len();

    let internal = 44; // sum of internal edges for each sector
    let external = 24; // sum of external edges for each sector
    let actual = internal + external;
    assert_eq!(actual, result);
}

#[test]
fn node_count_mutation() {
    let map_dimensions = MapDimensions::new(20, 20, 10);
    let mut sector_cost_fields = SectorCostFields::new(&map_dimensions);
    let mut sector_portals = build_portals(&sector_cost_fields, &map_dimensions);
    let mut graph = PortalGraph::new(&sector_portals, &sector_cost_fields, &map_dimensions);
    // update the costfield to add an impassable field cell
    let mutated_sector_id = SectorID::new(0, 0);
    let mutated_field_cell = FieldCell::new(4, 9);
    let value = 255;
    sector_cost_fields.set_field_cost(&mutated_sector_id, &mutated_field_cell, value, &map_dimensions);
    sector_portals.update_portals(mutated_sector_id, &sector_cost_fields, &map_dimensions);
    // update the graph
    graph.update_graph(mutated_sector_id, &sector_portals, &sector_cost_fields, &map_dimensions);
    let result = graph.get_nodes().len();
    let actual = 10;
    assert_eq!(actual, result);
}

#[test]
fn update_keeps_nodes_of_unchanged_sectors() {
    let map_dimensions = MapDimensions::new(30, 30, 10);
    let mut sector_cost_fields = SectorCostFields::new(&map_dimensions);
    let mut sector_portals = build_portals(&sector_cost_fields, &map_dimensions);
    let mut graph = PortalGraph::new(&sector_portals, &sector_cost_fields, &map_dimensions);
    let far = SectorID::new(2, 2);
    let before = graph.get_nodes().iter().filter(|n| n.sector_id == far).count();
    let changed = SectorID::new(0, 0);
    sector_cost_fields.set_field_cost(&changed, &FieldCell::new(4, 9), 255, &map_dimensions);
    sector_portals.update_portals(changed, &sector_cost_fields, &map_dimensions);
    graph.update_graph(changed, &sector_portals, &sector_cost_fields, &map_dimensions);
    assert_eq!(before, graph.get_nodes().iter().filter(|n| n.sector_id == far).count());
    // the changed sector holds exactly the nodes of its portals: one east, two south
    let mut cells: Vec<FieldCell> = graph
        .get_nodes()
        .iter()
        .filter(|n| n.sector_id == changed)
        .map(|n| n.portal_cell)
        .collect();
    cells.sort_by_key(|c| (c.get_column(), c.get_row()));
    assert_eq!(vec![FieldCell::new(1, 9), FieldCell::new(7, 9), FieldCell::new(9, 4)], cells);
}


#[test]
fn edge_count_mutation() {
    let map_dimensions = MapDimensions::new(20, 20, 10);
    let mut sector_cost_fields = SectorCostFields::new(&map_dimensions);
    let mut sector_portals = build_portals(&sector_cost_fields, &map_dimensions);
    let mut graph = PortalGraph::new(&sector_portals, &sector_cost_fields, &map_dimensions);
    // update the costfield to add an impassable field cell
    let mutated_sector_id = SectorID::new(0, 0);
    let mutated_field_cell = FieldCell::new(4, 9);
    let value = 255;
    sector_cost_fields.set_field_cost(&mutated_sector_id, &mutated_field_cell, value, &map_dimensions);
    sector_portals.update_portals(mutated_sector_id, &sector_cost_fields, &map_dimensions);
    // update the graph
    graph.update_graph(mutated_sector_id, &sector_portals, &sector_cost_fields, &map_dimensions);
    let result = graph.get_edges().len();
    let internal = 16;
    let external = 10;
    let actual = internal + external;
    assert_eq!(actual, result);
}

#[test]
fn update_graph_from_portals_change_edge_count() {
    let map_dimensions = MapDimensions::new(30, 30, 10);
    let mut sector_cost_fields = SectorCostFields::new(&map_dimensions);
    let mut sector_portals = build_portals(&sector_cost_fields, &map_dimensions);
    let mut portal_graph = PortalGraph::new(&sector_portals, &sector_cost_fields, &map_dimensions);

    let mutated_sector_id = SectorID::new(0, 0);
    sector_cost_fields.set_field_cost(&mutated_sector_id, &FieldCell::new(4, 9), 255, &map_dimensions);
    sector_portals.update_portals(mutated_sector_id, &sector_cost_fields, &map_dimensions);

    portal_graph.update_graph(mutated_sector_id, &sector_portals, &sector_cost_fields, &map_dimensions);
    let result = portal_graph.get_edges().len();
    // each portal in a sector is connected to every other portal in that sector
    let portal_to_portal_count = 54;
    // each sector boundary has an edge to the neighbouring sector boundary
    let sector_to_sector_count = 26;
    let actual = portal_to_portal_count + sector_to_sector_count;
    assert_eq!(actual, result);
}

#[test]
fn update_graph_from_portals_change_edge_count_dual_corner_portals() {
    let map_dimensions = MapDimensions::new(20, 20, 10);
    let mut sector_cost_fields = SectorCostFields::new(&map_dimensions);
    let mut sector_portals = build_portals(&sector_cost_fields, &map_dimensions);
    let mut portal_graph = PortalGraph::new(&sector_portals, &sector_cost_fields, &map_dimensions);

    let mutated_sector_id_0 = SectorID::new(0, 0);
    sector_cost_fields.set_field_cost(&mutated_sector_id_0, &FieldCell::new(9, 8), 255, &map_dimensions);
    sector_portals.update_portals(mutated_sector_id_0, &sector_cost_fields, &map_dimensions);
    portal_graph.update_graph(mutated_sector_id_0, &sector_portals, &sector_cost_fields, &map_dimensions);

    let mutated_sector_id_1 = SectorID::new(0, 1);
    sector_cost_fields.set_field_cost(&mutated_sector_id_1, &FieldCell::new(8, 0), 255, &map_dimensions);
    sector_portals.update_portals(mutated_sector_id_1, &sector_cost_fields, &map_dimensions);
    portal_graph.update_graph(mutated_sector_id_1, &sector_portals, &sector_cost_fields, &map_dimensions);

    let result_nodes = portal_graph.get_nodes().len();
    let actual_nodes = 11;
    assert_eq!(actual_nodes, result_nodes);
    let result_edges = portal_graph.get_edges().len();
    let portal_to_portal_count = 20;
    let sector_to_sector_count = 12;
    let actual_edges = portal_to_portal_count + sector_to_sector_count;
    assert_eq!(actual_edges, result_edges);
}

#[test]
fn update_graph_matches_fresh_build() {
    let map_dimensions = MapDimensions::new(30, 30, 10);
    let mut sector_cost_fields = SectorCostFields::new(&map_dimensions);
    let mut sector_portals = build_portals(&sector_cost_fields, &map_dimensions);
    let mut graph = PortalGraph::new(&sector_portals, &sector_cost_fields, &map_dimensions);
    for (sector, cell) in [(SectorID::new(1, 1), FieldCell::new(9, 5)), (SectorID::new(2, 1), FieldCell::new(3, 0))] {
        sector_cost_fields.set_field_cost(&sector, &cell, 255, &map_dimensions);
        sector_portals.update_portals(sector, &sector_cost_fields, &map_dimensions);
        graph.update_graph(sector, &sector_portals, &sector_cost_fields, &map_dimensions);
    }
    let fresh = PortalGraph::new(&sector_portals, &sector_cost_fields, &map_dimensions);
    let key = |n: &PortalNode| (n.sector_id.column, n.sector_id.row, n.portal_cell.get_column(), n.portal_cell.get_row(), n.weight);
    let mut a: Vec<_> = graph.get_nodes().iter().map(key).collect();
    let mut b: Vec<_> = fresh.get_nodes().iter().map(key).collect();
    a.sort();
    b.sort();
    assert_eq!(a, b);
    let ekey = |e: &bevy_flowfield_tiles_plugin::portal::portal_graph::PortalEdge| {
        (key(&e.source_node), key(&e.target_node), e.distance, e.direction == Direction::Internal)
    };
    let mut c: Vec<_> = graph.get_edges().iter().map(ekey).collect();
    let mut d: Vec<_> = fresh.get_edges().iter().map(ekey).collect();
    c.sort();
    d.sort();
    assert_eq!(c, d);
}

// the portal cells of a sector that a cell reaches, in the order N, E, S, W
fn portals_reached_from(
    sector_portals: &SectorPortals,
    sector_cost_fields: &SectorCostFields,
    at: (SectorID, FieldCell),
) -> Vec<FieldCell> {
    let portals = sector_portals.get(&at.0).unwrap();
    let cost_field = sector_cost_fields.get_scaled(&at.0).unwrap();
    let mut cells = Vec::new();
    for side in [CompassDir::North, CompassDir::East, CompassDir::South, CompassDir::West] {
        for cell in portals.get_portals_for_side(&side).iter() {
            if cost_field.can_internal_portal_pair_see_each_other(at.1, *cell).0 {
                cells.push(*cell);
            }
        }
    }
    cells
}

#[test]
fn best_path_is_first_least_of_pair_searches() {
    let map_dimensions = MapDimensions::new(30, 30, 10);
    let mut sector_cost_fields = SectorCostFields::new(&map_dimensions);
    sector_cost_fields.set_field_cost(&SectorID::new(1, 1), &FieldCell::new(5, 4), 255, &map_dimensions);
    sector_cost_fields.set_field_cost(&SectorID::new(0, 1), &FieldCell::new(9, 3), 255, &map_dimensions);
    sector_cost_fields.set_field_cost(&SectorID::new(1, 0), &FieldCell::new(4, 9), 40, &map_dimensions);
    let sector_portals = build_portals(&sector_cost_fields, &map_dimensions);
    let portal_graph = PortalGraph::new(&sector_portals, &sector_cost_fields, &map_dimensions);
    let source = (SectorID::new(0, 0), FieldCell::new(2, 3));
    let target = (SectorID::new(2, 2), FieldCell::new(7, 7));
    let weight = |at: (SectorID, FieldCell)| {
        sector_cost_fields.get_scaled(&at.0).unwrap().get_field_cell_value(at.1) as i32
    };
    let mut best: Option<(i32, Vec<(SectorID, FieldCell)>)> = None;
    let mut found = 0;
    for sp in portals_reached_from(&sector_portals, &sector_cost_fields, source) {
        for tp in portals_reached_from(&sector_portals, &sector_cost_fields, target) {
            let from = PortalNode::new(source.0, sp, weight(source));
            let to = PortalNode::new(target.0, tp, weight(target));
            if let Some((score, route)) = portal_graph.find_path_between_sector_portals(from, to) {
                found += 1;
                if best.as_ref().map_or(true, |b| score < b.0) {
                    best = Some((score, route));
                }
            }
        }
    }
    assert!(found > 1);
    let route = portal_graph.find_best_path(source, target, &sector_portals, &sector_cost_fields);
    assert!(route.is_some());
    assert_eq!(best.map(|b| b.1), route);
}

// the least distance of a route alternating between external and internal
// edges, external first, from `s` to `t`
fn least_alternating_distance(g: &PortalGraph, s: &PortalNode, t: &PortalNode) -> Option<i32> {
    let key = |n: &PortalNode| (n.sector_id.column, n.sector_id.row, n.portal_cell.get_column(), n.portal_cell.get_row());
    let mut dist: Vec<((i32, i32, usize, usize), bool, i32)> = vec![(key(s), true, 0)];
    let mut changed = true;
    while changed {
        changed = false;
        for e in g.get_edges().iter() {
            let ext = e.direction == Direction::External;
            let from = dist.iter().find(|x| x.0 == key(&e.source_node) && x.1 == ext).map(|x| x.2);
            if let Some(d) = from {
                let nd = d + e.distance;
                match dist.iter_mut().find(|x| x.0 == key(&e.target_node) && x.1 != ext) {
                    Some(x) => {
                        if nd < x.2 {
                            x.2 = nd;
                            changed = true;
                        }
                    },
                    None => {
                        dist.push((key(&e.target_node), !ext, nd));
                        changed = true;
                    },
                }
            }
        }
    }
    dist.iter().filter(|x| x.0 == key(t)).map(|x| x.2).min()
}

#[test]
fn portal_search_returns_first_route_found_not_least() {
    let map_dimensions = MapDimensions::new(30, 30, 10);
    let mut sector_cost_fields = SectorCostFields::new(&map_dimensions);
    let walls = [
        ((2, 2), (3, 3), 21),
        ((1, 0), (9, 6), 77),
        ((2, 2), (9, 2), 255),
        ((0, 0), (1, 6), 56),
        ((0, 2), (4, 0), 95),
        ((1, 1), (7, 0), 175),
        ((2, 0), (7, 2), 255),
        ((1, 2), (8, 0), 146),
        ((0, 2), (6, 0), 56),
        ((2, 2), (4, 1), 58),
        ((0, 1), (9, 3), 62),
        ((2, 2), (0, 3), 140),
    ];
    for ((sc, sr), (c, r), v) in walls {
        sector_cost_fields.set_field_cost(&SectorID::new(sc, sr), &FieldCell::new(c, r), v, &map_dimensions);
    }
    let sector_portals = build_portals(&sector_cost_fields, &map_dimensions);
    let graph = PortalGraph::new(&sector_portals, &sector_cost_fields, &map_dimensions);
    let source = PortalNode::new(SectorID::new(1, 0), FieldCell::new(0, 4), 1);
    let target = PortalNode::new(SectorID::new(0, 2), FieldCell::new(9, 4), 1);
    let (score, route) = graph.find_path_between_sector_portals(source, target).unwrap();
    // the search ends with the first route reaching the target
    assert_eq!(62, score);
    assert_eq!((SectorID::new(1, 0), FieldCell::new(0, 4)), route[0]);
    assert_eq!((SectorID::new(0, 2), FieldCell::new(9, 4)), *route.last().unwrap());
    // a route of the graph of distance 43, score 44, exists
    assert_eq!(Some(43), least_alternating_distance(&graph, &source, &target));
}
