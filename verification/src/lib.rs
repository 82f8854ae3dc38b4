//! Flowfield pathfinding over a world split into sectors of fixed-size
//! fields: cost fields, integration fields, flow fields and the portals that
//! join neighbouring sectors.

pub mod utilities;
pub mod graph;
pub mod sectors;
pub mod dimensions;
pub mod sector_cost;
pub mod fields;
pub mod cost_field;
pub mod cost_fields;
pub mod portal;
pub mod sector_portals;
pub mod route;
pub mod flowfield_cache;
pub mod tiles;
