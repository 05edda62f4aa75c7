//! The store: the collections of a dataset.

use crate::collection::Arena;
use crate::objects::{
    CommercialMode, Line, Network, PhysicalMode, StopArea, Ticket, TicketPrice, TicketUse,
    TicketUsePerimeter, TicketUseRestriction, VehicleJourney,
};
use vstd::prelude::*;

verus! {

/// The collections of a dataset.
#[derive(Debug)]
pub struct Collections {
    pub networks: Arena<Network>,
    pub commercial_modes: Arena<CommercialMode>,
    pub physical_modes: Arena<PhysicalMode>,
    pub lines: Arena<Line>,
    pub vehicle_journeys: Arena<VehicleJourney>,
    pub stop_areas: Arena<StopArea>,
    pub tickets: Arena<Ticket>,
    pub ticket_uses: Arena<TicketUse>,
    pub ticket_prices: Vec<TicketPrice>,
    pub ticket_use_perimeters: Vec<TicketUsePerimeter>,
    pub ticket_use_restrictions: Vec<TicketUseRestriction>,
}

impl Collections {
    /// In each collection with identifiers, no identifier occurs twice.
    pub open spec fn wf(&self) -> bool {
        &&& self.networks.wf()
        &&& self.commercial_modes.wf()
        &&& self.physical_modes.wf()
        &&& self.lines.wf()
        &&& self.vehicle_journeys.wf()
        &&& self.stop_areas.wf()
        &&& self.tickets.wf()
        &&& self.ticket_uses.wf()
    }

    /// No collection holds an entity.
    pub open spec fn is_empty(&self) -> bool {
        &&& self.networks@.len() == 0
        &&& self.commercial_modes@.len() == 0
        &&& self.physical_modes@.len() == 0
        &&& self.lines@.len() == 0
        &&& self.vehicle_journeys@.len() == 0
        &&& self.stop_areas@.len() == 0
        &&& self.tickets@.len() == 0
        &&& self.ticket_uses@.len() == 0
        &&& self.ticket_prices@.len() == 0
        &&& self.ticket_use_perimeters@.len() == 0
        &&& self.ticket_use_restrictions@.len() == 0
    }

    /// The store without entities.
    pub fn new() -> (collections: Self)
        ensures
            collections.wf(),
            collections.is_empty(),
    {
        Collections {
            networks: Arena::new(),
            commercial_modes: Arena::new(),
            physical_modes: Arena::new(),
            lines: Arena::new(),
            vehicle_journeys: Arena::new(),
            stop_areas: Arena::new(),
            tickets: Arena::new(),
            ticket_uses: Arena::new(),
            ticket_prices: Vec::new(),
            ticket_use_perimeters: Vec::new(),
            ticket_use_restrictions: Vec::new(),
        }
    }
}

impl Default for Collections {
    fn default() -> (collections: Self)
        ensures
            collections.wf(),
            collections.is_empty(),
    {
        Collections::new()
    }
}

} // verus!
