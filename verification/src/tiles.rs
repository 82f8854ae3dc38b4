//! The pathing data of a world: its dimensions, the cost fields of its
//! sectors, the portals and graph joining the sectors, and a cache of built
//! flow fields that actors read.

use vstd::prelude::*;
use crate::dimensions::MapDimensions;
use crate::fields::flow_field::FlowField;
use crate::flowfield_cache::FlowFieldCache;
use crate::portal::window_graph::Portals;
use crate::route::RouteStep;
use crate::fields::cost_field::uniform;
use crate::sector_cost::SectorCostFields;

verus! {

/// All the data needed to generate flow field tiles for a world
pub struct FlowFieldTiles {
    /// Size of the world
    dimensions: MapDimensions,
    /// The cost fields of all sectors
    sector_cost_fields: SectorCostFields,
    /// Portals and graph describing sector-to-sector connectivity
    portals: Portals,
    /// Cache of flow fields that can be queried in a steering pipeline
    flowfield_cache: FlowFieldCache,
}

impl FlowFieldTiles {
    /// The dimensions of the world
    pub closed spec fn spec_dimensions(&self) -> MapDimensions {
        self.dimensions
    }

    /// The cost fields of the sectors
    pub closed spec fn spec_cost_fields(&self) -> SectorCostFields {
        self.sector_cost_fields
    }

    /// The portals and their graph
    pub closed spec fn spec_portals(&self) -> Portals {
        self.portals
    }

    /// The cache of flow fields
    pub closed spec fn spec_cache(&self) -> FlowFieldCache {
        self.flowfield_cache
    }

    /// The parts agree: the cost fields cover the world's sectors, and the
    /// portals and graph are those the scaled costs give
    pub open spec fn wf(&self) -> bool {
        &&& self.spec_cost_fields().wf()
        &&& self.spec_portals().wf()
        &&& self.spec_cost_fields().spec_columns() == self.spec_dimensions().columns()
        &&& self.spec_cost_fields().spec_rows() == self.spec_dimensions().rows()
        &&& self.spec_portals().spec_columns() == self.spec_dimensions().columns()
        &&& self.spec_portals().spec_rows() == self.spec_dimensions().rows()
        &&& self.spec_portals().built_from(&self.spec_cost_fields())
        &&& self.spec_cache().wf()
    }

    /// Create the pathing data of a world whose cells all start with `cost`
    /// (scaled for the size of actors), with the portals and graph those
    /// costs give and an empty cache
    pub fn new_with_cost(dimensions: MapDimensions, cost: u8) -> (r: FlowFieldTiles)
        requires
            dimensions.wf(),
            dimensions.columns() * dimensions.rows() * 1700 < u32::MAX,
            dimensions.columns() <= i32::MAX - 100,
            dimensions.rows() <= i32::MAX - 100,
            dimensions.spec_actor_scale() <= 20,
        ensures
            r.wf(),
            r.spec_dimensions() == dimensions,
            r.spec_cost_fields().baseline_costs() == Seq::new(
                (dimensions.columns() * dimensions.rows()) as nat,
                |k: int| uniform(cost),
            ),
            r.spec_cost_fields().scaled_costs() == r.spec_cost_fields().fully_scaled(dimensions.spec_actor_scale() as int),
            r.spec_cache().entries().len() == 0,
    {
        assert(dimensions.columns() * dimensions.rows() <= usize::MAX) by (nonlinear_arith)
            requires
                dimensions.columns() * dimensions.rows() * 1700 < u32::MAX,
                dimensions.columns() >= 0,
                dimensions.rows() >= 0,
        ;
        let sector_cost_fields = SectorCostFields::new_with_cost(&dimensions, cost);
        let portals = Portals::new(&sector_cost_fields);
        FlowFieldTiles { dimensions, sector_cost_fields, portals, flowfield_cache: FlowFieldCache::new() }
    }

    /// Create the pathing data of a world whose cells all start with the
    /// default cost of `1`
    pub fn new(dimensions: MapDimensions) -> (r: FlowFieldTiles)
        requires
            dimensions.wf(),
            dimensions.columns() * dimensions.rows() * 1700 < u32::MAX,
            dimensions.columns() <= i32::MAX - 100,
            dimensions.rows() <= i32::MAX - 100,
            dimensions.spec_actor_scale() <= 20,
        ensures
            r.wf(),
            r.spec_dimensions() == dimensions,
            r.spec_cost_fields().baseline_costs() == Seq::new(
                (dimensions.columns() * dimensions.rows()) as nat,
                |k: int| uniform(1),
            ),
            r.spec_cost_fields().scaled_costs() == r.spec_cost_fields().fully_scaled(dimensions.spec_actor_scale() as int),
            r.spec_cache().entries().len() == 0,
    {
        FlowFieldTiles::new_with_cost(dimensions, 1)
    }

    /// Get a reference to the dimensions
    pub fn get_dimensions(&self) -> (r: &MapDimensions)
        ensures
            *r == self.spec_dimensions(),
    {
        &self.dimensions
    }

    /// Get a reference to the cost fields of the sectors
    pub fn get_sector_cost_fields(&self) -> (r: &SectorCostFields)
        ensures
            *r == self.spec_cost_fields(),
    {
        &self.sector_cost_fields
    }

    /// Get a reference to the portals and their graph
    pub fn get_portals(&self) -> (r: &Portals)
        ensures
            *r == self.spec_portals(),
    {
        &self.portals
    }

    /// Get a reference to the cache of flow fields
    pub fn flowfield_cache(&self) -> (r: &FlowFieldCache)
        ensures
            *r == self.spec_cache(),
    {
        &self.flowfield_cache
    }

    /// Retrieve the flow field of a route step; `None` when it has not been
    /// generated yet
    pub fn read_flowfield(&self, route_step: &RouteStep) -> (r: Option<&FlowField>)
        requires
            self.wf(),
        ensures
            r is Some <==> self.spec_cache().stored(*route_step) is Some,
            r matches Some(f) ==> self.spec_cache().stored(*route_step) == Some(*f),
    {
        self.flowfield_cache.get(route_step)
    }
}

} // verus!
