//! The attribute schema of a search index.
//!
//! A [`Schema`] is the single record of which fields an index knows: it gives
//! every field name a compact [`FieldId`], keeps the order in which fields are
//! indexed, and says which fields are ranked, displayed and searchable.
//!
//! The crate has three layers, none of which depends on one above it:
//!
//! * [`FieldsMap`] interns names: a name gets the next free identifier the
//!   first time it is seen and keeps it for good;
//! * [`PositionMap`] keeps some identifiers in a dense order, positions
//!   `0..len`, and can move one to another position;
//! * [`Schema`] owns one of each, together with the primary key and the
//!   three visibility settings.
//!
//! The contract of every operation is stated over a mathematical model of the
//! value it works on (`view`), and every value that the crate hands out is well
//! formed (`wf`). What holds of the operations taken together is proved in the
//! `lemma_` functions of each module.
use vstd::prelude::*;

pub mod error;
pub mod fields_map;
pub mod position_map;
pub mod schema;

pub use error::{Error, SResult};
pub use fields_map::FieldsMap;
pub use position_map::PositionMap;
pub use schema::{Schema, SchemaView, Selection, Snapshot};

verus! {

/// The number of a field. Identifiers are handed out by a [`FieldsMap`],
/// counting up from zero, and mean something only for the map that issued them.
#[derive(Debug, Copy, Clone, PartialEq, Eq, Structural, PartialOrd, Ord, Hash, Default)]
pub struct FieldId(pub u16);

impl FieldId {
    pub fn new(value: u16) -> (id: FieldId)
        ensures
            id.0 == value,
    {
        FieldId(value)
    }

    /// The smallest identifier, the one the first field gets.
    pub fn min() -> (id: FieldId)
        ensures
            id.0 == 0,
    {
        FieldId(0)
    }

    /// The largest value of the type. It is never issued: it only marks a full map.
    pub fn max() -> (id: FieldId)
        ensures
            id.0 == u16::MAX,
    {
        FieldId(u16::MAX)
    }

    /// The identifier after this one, or `MaxFieldsLimitExceeded` where there is none.
    pub fn next(self) -> (r: SResult<FieldId>)
        ensures
            self.0 < u16::MAX ==> r == Ok::<FieldId, Error>(FieldId((self.0 + 1) as u16)),
            self.0 == u16::MAX ==> r == Err::<FieldId, Error>(Error::MaxFieldsLimitExceeded),
    {
        match self.0.checked_add(1) {
            Some(value) => Ok(FieldId(value)),
            None => Err(Error::MaxFieldsLimitExceeded),
        }
    }
}

impl From<u16> for FieldId {
    fn from(value: u16) -> (id: FieldId) {
        FieldId(value)
    }
}

impl vstd::std_specs::convert::FromSpecImpl<u16> for FieldId {
    open spec fn obeys_from_spec() -> bool {
        true
    }

    open spec fn from_spec(value: u16) -> FieldId {
        FieldId(value)
    }
}

impl From<FieldId> for u16 {
    fn from(id: FieldId) -> (value: u16) {
        id.0
    }
}

impl vstd::std_specs::convert::FromSpecImpl<FieldId> for u16 {
    open spec fn obeys_from_spec() -> bool {
        true
    }

    open spec fn from_spec(id: FieldId) -> u16 {
        id.0
    }
}

/// A place in the indexing order: `IndexedPos(0)` is the first field.
#[derive(Debug, Copy, Clone, PartialEq, Eq, Structural, PartialOrd, Ord, Hash, Default)]
pub struct IndexedPos(pub u16);

impl IndexedPos {
    pub fn new(value: u16) -> (pos: IndexedPos)
        ensures
            pos.0 == value,
    {
        IndexedPos(value)
    }

    pub fn min() -> (pos: IndexedPos)
        ensures
            pos.0 == 0,
    {
        IndexedPos(0)
    }

    pub fn max() -> (pos: IndexedPos)
        ensures
            pos.0 == u16::MAX,
    {
        IndexedPos(u16::MAX)
    }
}

impl From<u16> for IndexedPos {
    fn from(value: u16) -> (pos: IndexedPos) {
        IndexedPos(value)
    }
}

impl vstd::std_specs::convert::FromSpecImpl<u16> for IndexedPos {
    open spec fn obeys_from_spec() -> bool {
        true
    }

    open spec fn from_spec(value: u16) -> IndexedPos {
        IndexedPos(value)
    }
}

impl From<IndexedPos> for u16 {
    fn from(pos: IndexedPos) -> (value: u16) {
        pos.0
    }
}

impl vstd::std_specs::convert::FromSpecImpl<IndexedPos> for u16 {
    open spec fn obeys_from_spec() -> bool {
        true
    }

    open spec fn from_spec(pos: IndexedPos) -> u16 {
        pos.0
    }
}

} // verus!
