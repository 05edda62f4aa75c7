//! The entities of a dataset, reduced to the attributes that the curation
//! passes read or write.

use vstd::prelude::*;

verus! {

/// An entity with a stable identifier, unique within its collection.
pub trait Identified: Sized {
    /// The identifier as a sequence of characters.
    spec fn key(&self) -> Seq<char>;

    /// The identifier.
    fn id(&self) -> (id: &String)
        ensures
            id@ == self.key(),
    ;
}

/// A reference entity that regroup rules consolidate: it has a display
/// name, and a rule can create it from an identifier and a name.
pub trait Consolidated: Identified {
    /// The display name as a sequence of characters.
    spec fn named(&self) -> Seq<char>;

    /// The key under which a rule's properties give the identifier.
    spec fn id_field() -> Seq<char>;

    /// Whether ticket use perimeters name entities of this type.
    spec fn in_perimeters() -> bool;

    /// The display name.
    fn name(&self) -> (name: &String)
        ensures
            name@ == self.named(),
    ;

    /// The entity with this identifier and this display name.
    fn create(id: String, name: String) -> (made: Self)
        ensures
            made.key() == id@,
            made.named() == name@,
    ;

    /// The key under which a rule's properties give the identifier.
    fn id_key() -> (key: &'static str)
        ensures
            key@ == Self::id_field(),
    ;

    /// Whether ticket use perimeters name entities of this type.
    fn named_in_perimeters() -> (named: bool)
        ensures
            named == Self::in_perimeters(),
    ;
}

/// An entity that refers to one entity of type `P` by its identifier.
pub trait Linked<P>: Identified {
    /// The identifier of the entity referred to.
    spec fn link(&self) -> Seq<char>;

    /// The attributes other than this reference.
    spec fn rest(&self) -> Seq<Seq<char>>;

    /// The identifier of the entity referred to.
    fn linked_id(&self) -> (id: &String)
        ensures
            id@ == Linked::<P>::link(self),
    ;

    /// The same entity, referring to `target` instead.
    fn relinked(&self, target: String) -> (made: Self)
        ensures
            made.key() == self.key(),
            Linked::<P>::link(&made) == target@,
            Linked::<P>::rest(&made) == Linked::<P>::rest(self),
    ;
}

/// A reference entity as specifications see it.
pub struct EntityView {
    pub id: Seq<char>,
    pub name: Seq<char>,
}

/// The rows as specifications see them, by position.
pub open spec fn entity_views<P: Consolidated>(rows: Seq<P>) -> Seq<EntityView> {
    rows.map_values(|row: P| EntityView { id: row.key(), name: row.named() })
}

/// The identifiers of entities, by position.
pub open spec fn ids_of(entities: Seq<EntityView>) -> Seq<Seq<char>> {
    entities.map_values(|entity: EntityView| entity.id)
}

/// A transport network.
#[derive(Debug)]
pub struct Network {
    pub id: String,
    pub name: String,
}

/// A commercial mode (what the traveller sees: bus, tramway, ...).
#[derive(Debug)]
pub struct CommercialMode {
    pub id: String,
    pub name: String,
}

/// A physical mode (what the vehicle is).
#[derive(Debug)]
pub struct PhysicalMode {
    pub id: String,
    pub name: String,
}

/// A line, which belongs to a network and has a commercial mode.
#[derive(Debug)]
pub struct Line {
    pub id: String,
    pub network_id: String,
    pub commercial_mode_id: String,
}

/// A vehicle journey, which is run with a physical mode.
#[derive(Debug)]
pub struct VehicleJourney {
    pub id: String,
    pub physical_mode_id: String,
}

/// A stop area.
#[derive(Debug)]
pub struct StopArea {
    pub id: String,
    pub name: String,
}

/// A ticket.
#[derive(Debug)]
pub struct Ticket {
    pub id: String,
}

/// A way of using a ticket.
#[derive(Debug)]
pub struct TicketUse {
    pub id: String,
    pub ticket_id: String,
}

/// A price of a ticket.
#[derive(Debug)]
pub struct TicketPrice {
    pub ticket_id: String,
}

/// The kind of object that a ticket use perimeter names.
#[derive(Debug, Clone, Copy, PartialEq, Eq, Structural)]
pub enum ObjectType {
    Network,
    Line,
}

/// The part of the dataset on which a ticket use is valid.
#[derive(Debug)]
pub struct TicketUsePerimeter {
    pub ticket_use_id: String,
    pub object_type: ObjectType,
    pub object_id: String,
}

/// A ticket use perimeter as specifications see it.
pub struct PerimeterView {
    pub ticket_use_id: Seq<char>,
    pub object_type: ObjectType,
    pub object_id: Seq<char>,
}

impl View for TicketUsePerimeter {
    type V = PerimeterView;

    open spec fn view(&self) -> PerimeterView {
        PerimeterView {
            ticket_use_id: self.ticket_use_id@,
            object_type: self.object_type,
            object_id: self.object_id@,
        }
    }
}

/// The perimeters as specifications see them, by position.
pub open spec fn perimeter_views(rows: Seq<TicketUsePerimeter>) -> Seq<PerimeterView> {
    rows.map_values(|row: TicketUsePerimeter| row@)
}

/// The kind of a ticket use restriction.
#[derive(Debug, Clone, Copy, PartialEq, Eq, Structural)]
pub enum RestrictionType {
    OriginDestination,
    Zone,
}

/// A restriction of a ticket use to a trip between two stop areas, or to
/// a zone.
#[derive(Debug)]
pub struct TicketUseRestriction {
    pub ticket_use_id: String,
    pub restriction_type: RestrictionType,
    pub use_origin: String,
    pub use_destination: String,
}

/// A ticket use restriction as specifications see it.
pub struct RestrictionView {
    pub ticket_use_id: Seq<char>,
    pub restriction_type: RestrictionType,
    pub use_origin: Seq<char>,
    pub use_destination: Seq<char>,
}

impl View for TicketUseRestriction {
    type V = RestrictionView;

    open spec fn view(&self) -> RestrictionView {
        RestrictionView {
            ticket_use_id: self.ticket_use_id@,
            restriction_type: self.restriction_type,
            use_origin: self.use_origin@,
            use_destination: self.use_destination@,
        }
    }
}

impl Identified for Network {
    open spec fn key(&self) -> Seq<char> {
        self.id@
    }

    fn id(&self) -> (id: &String) {
        &self.id
    }
}

impl Identified for CommercialMode {
    open spec fn key(&self) -> Seq<char> {
        self.id@
    }

    fn id(&self) -> (id: &String) {
        &self.id
    }
}

impl Identified for PhysicalMode {
    open spec fn key(&self) -> Seq<char> {
        self.id@
    }

    fn id(&self) -> (id: &String) {
        &self.id
    }
}

impl Identified for Line {
    open spec fn key(&self) -> Seq<char> {
        self.id@
    }

    fn id(&self) -> (id: &String) {
        &self.id
    }
}

impl Identified for VehicleJourney {
    open spec fn key(&self) -> Seq<char> {
        self.id@
    }

    fn id(&self) -> (id: &String) {
        &self.id
    }
}

impl Identified for StopArea {
    open spec fn key(&self) -> Seq<char> {
        self.id@
    }

    fn id(&self) -> (id: &String) {
        &self.id
    }
}

impl Identified for Ticket {
    open spec fn key(&self) -> Seq<char> {
        self.id@
    }

    fn id(&self) -> (id: &String) {
        &self.id
    }
}

impl Identified for TicketUse {
    open spec fn key(&self) -> Seq<char> {
        self.id@
    }

    fn id(&self) -> (id: &String) {
        &self.id
    }
}

impl Consolidated for Network {
    open spec fn named(&self) -> Seq<char> {
        self.name@
    }

    open spec fn id_field() -> Seq<char> {
        "network_id"@
    }

    open spec fn in_perimeters() -> bool {
        true
    }

    fn name(&self) -> (name: &String) {
        &self.name
    }

    fn create(id: String, name: String) -> (made: Self) {
        Network { id, name }
    }

    fn id_key() -> (key: &'static str) {
        "network_id"
    }

    fn named_in_perimeters() -> (named: bool) {
        true
    }
}

impl Consolidated for CommercialMode {
    open spec fn named(&self) -> Seq<char> {
        self.name@
    }

    open spec fn id_field() -> Seq<char> {
        "commercial_mode_id"@
    }

    open spec fn in_perimeters() -> bool {
        false
    }

    fn name(&self) -> (name: &String) {
        &self.name
    }

    fn create(id: String, name: String) -> (made: Self) {
        CommercialMode { id, name }
    }

    fn id_key() -> (key: &'static str) {
        "commercial_mode_id"
    }

    fn named_in_perimeters() -> (named: bool) {
        false
    }
}

impl Consolidated for PhysicalMode {
    open spec fn named(&self) -> Seq<char> {
        self.name@
    }

    open spec fn id_field() -> Seq<char> {
        "physical_mode_id"@
    }

    open spec fn in_perimeters() -> bool {
        false
    }

    fn name(&self) -> (name: &String) {
        &self.name
    }

    fn create(id: String, name: String) -> (made: Self) {
        PhysicalMode { id, name }
    }

    fn id_key() -> (key: &'static str) {
        "physical_mode_id"
    }

    fn named_in_perimeters() -> (named: bool) {
        false
    }
}

impl Linked<Network> for Line {
    open spec fn link(&self) -> Seq<char> {
        self.network_id@
    }

    open spec fn rest(&self) -> Seq<Seq<char>> {
        seq![self.id@, self.commercial_mode_id@]
    }

    fn linked_id(&self) -> (id: &String) {
        &self.network_id
    }

    fn relinked(&self, target: String) -> (made: Self) {
        Line {
            id: self.id.clone(),
            network_id: target,
            commercial_mode_id: self.commercial_mode_id.clone(),
        }
    }
}

impl Linked<CommercialMode> for Line {
    open spec fn link(&self) -> Seq<char> {
        self.commercial_mode_id@
    }

    open spec fn rest(&self) -> Seq<Seq<char>> {
        seq![self.id@, self.network_id@]
    }

    fn linked_id(&self) -> (id: &String) {
        &self.commercial_mode_id
    }

    fn relinked(&self, target: String) -> (made: Self) {
        Line {
            id: self.id.clone(),
            network_id: self.network_id.clone(),
            commercial_mode_id: target,
        }
    }
}

impl Linked<PhysicalMode> for VehicleJourney {
    open spec fn link(&self) -> Seq<char> {
        self.physical_mode_id@
    }

    open spec fn rest(&self) -> Seq<Seq<char>> {
        seq![self.id@]
    }

    fn linked_id(&self) -> (id: &String) {
        &self.physical_mode_id
    }

    fn relinked(&self, target: String) -> (made: Self) {
        VehicleJourney { id: self.id.clone(), physical_mode_id: target }
    }
}

} // verus!
