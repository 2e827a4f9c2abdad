//! The schema: names, primary key, visibility settings and indexing order.
use crate::fields_map::{
    has_room, have_room, id_of, id_when_interned, ids_of, interned, interned_all, lemma_ids_of,
    lemma_ids_of_distinct, lemma_interned, lemma_interned_all, max_fields, name_of, owned_texts,
    texts, FieldsMap,
};
use crate::position_map::{
    field_at, lemma_filter_keeps, lemma_lookups_inverse, lemma_order_has_room,
    lemma_position_is_index, lemma_positions_dense, lemma_relocated_to_end, lemma_repositioned,
    lemma_repositioned_distinct, lemma_without, not_in, occupied, position_of, repositioned,
    PositionMap,
};
use crate::{Error, FieldId, IndexedPos, SResult};
use std::collections::{BTreeSet, HashSet};
use vstd::prelude::*;

verus! {

/// Which fields a visibility setting selects: all of them, those that are
/// known now and those that come later, or the fields that were named when
/// the setting was made.
#[verifier::ext_equal]
#[derive(Debug)]
pub enum Selection<T> {
    All,
    Subset(T),
}

/// The model of a [`Schema`].
#[verifier::ext_equal]
pub struct SchemaView {
    /// The names, in the order of their identifiers.
    pub names: Seq<Seq<char>>,
    /// The primary key, once it is set.
    pub primary_key: Option<FieldId>,
    /// The ranked fields.
    pub ranked: Set<FieldId>,
    /// The displayed fields.
    pub displayed: Selection<Set<FieldId>>,
    /// The searchable fields, in the order in which they were given.
    pub searchable: Selection<Seq<FieldId>>,
    /// The indexing order: the field at index `p` has position `p`.
    pub positions: Seq<FieldId>,
}

impl SchemaView {
    /// The model of the schema that knows no field.
    pub open spec fn empty() -> SchemaView {
        SchemaView {
            names: Seq::empty(),
            primary_key: None,
            ranked: Set::empty(),
            displayed: Selection::All,
            searchable: Selection::All,
            positions: Seq::empty(),
        }
    }

    /// Whether `id` is the identifier of a name.
    pub open spec fn knows(self, id: FieldId) -> bool {
        id.0 < self.names.len()
    }

    /// What holds of the model of every well-formed schema: names and
    /// identifiers stand one to one, no field has two positions, and the
    /// primary key and the fields that a setting names are known.
    pub open spec fn valid(self) -> bool {
        &&& self.names.no_duplicates()
        &&& self.names.len() <= max_fields()
        &&& self.positions.no_duplicates()
        &&& self.primary_key matches Some(id) ==> self.knows(id)
        &&& forall|id: FieldId| #[trigger] self.ranked.contains(id) ==> self.knows(id)
        &&& self.displayed matches Selection::Subset(ids) ==> forall|id: FieldId| #[trigger]
            ids.contains(id) ==> self.knows(id)
        &&& self.searchable matches Selection::Subset(ids) ==> forall|i: int|
            0 <= i < ids.len() ==> self.knows(#[trigger] ids[i])
    }

    /// Whether `id` is ranked.
    pub open spec fn is_ranked(self, id: FieldId) -> bool {
        self.ranked.contains(id)
    }

    /// Whether `id` is displayed.
    pub open spec fn is_displayed(self, id: FieldId) -> bool {
        match self.displayed {
            Selection::All => true,
            Selection::Subset(ids) => ids.contains(id),
        }
    }

    /// The test that a field is displayed.
    pub open spec fn displayed_test(self) -> spec_fn(FieldId) -> bool {
        |id: FieldId| self.is_displayed(id)
    }

    /// The test that a field is ranked.
    pub open spec fn ranked_test(self) -> spec_fn(FieldId) -> bool {
        |id: FieldId| self.is_ranked(id)
    }

    /// The ranked fields, in ascending order.
    pub open spec fn ranked_ids(self) -> Seq<FieldId> {
        all_ids(self.names.len()).filter(self.ranked_test())
    }

    /// The test that a field is known.
    pub open spec fn known_test(self) -> spec_fn(FieldId) -> bool {
        |id: FieldId| self.knows(id)
    }

    /// The known fields that are displayed, in ascending order.
    pub open spec fn displayed_ids(self) -> Seq<FieldId> {
        all_ids(self.names.len()).filter(self.displayed_test())
    }

    /// Every known field: first those that have a position, in the indexing
    /// order, then the others in ascending order.
    pub open spec fn every_field(self) -> Seq<FieldId> {
        self.positions.filter(self.known_test()) + all_ids(self.names.len()).filter(
            not_in(self.positions),
        )
    }

    /// The searchable fields: every known field, or the fields that were
    /// named, in the order in which they were given.
    pub open spec fn searchable_ids(self) -> Seq<FieldId> {
        match self.searchable {
            Selection::All => self.every_field(),
            Selection::Subset(ids) => ids,
        }
    }

    /// The names of `ids`, which are known.
    pub open spec fn names_of(self, ids: Seq<FieldId>) -> Seq<Seq<char>> {
        Seq::new(ids.len(), |i: int| self.names[ids[i].0 as int])
    }

    /// The names of the known fields that are displayed.
    pub open spec fn displayed_names(self) -> Seq<Seq<char>> {
        self.names_of(self.displayed_ids())
    }

    /// The names of the searchable fields.
    pub open spec fn searchable_names(self) -> Seq<Seq<char>> {
        self.names_of(self.searchable_ids())
    }

    /// The fields of the lists that are made on demand are known, and a
    /// displayed one is listed as such.
    pub proof fn lemma_lists(self)
        requires
            self.valid(),
        ensures
            forall|i: int|
                0 <= i < self.displayed_ids().len() ==> self.knows(#[trigger] self.displayed_ids()[i]),
            forall|i: int|
                0 <= i < self.searchable_ids().len() ==> self.knows(#[trigger] self.searchable_ids()[i]),
            forall|id: FieldId|
                self.knows(id) && self.is_displayed(id) ==> #[trigger] self.displayed_ids().contains(id),
            forall|id: FieldId| #[trigger]
                self.displayed_ids().contains(id) ==> self.knows(id) && self.is_displayed(id),
    {
        let all = all_ids(self.names.len());
        lemma_filter_keeps(all, self.displayed_test());
        lemma_filter_keeps(all, not_in(self.positions));
        lemma_filter_keeps(self.positions, self.known_test());
        assert forall|id: FieldId| #[trigger] all.contains(id) <==> self.knows(id) by {
            if self.knows(id) {
                assert(all[id.0 as int] == id);
            }
            if all.contains(id) {
                let i = all.index_of(id);
                assert(all[i] == id);
            }
        }
        assert forall|i: int| 0 <= i < self.displayed_ids().len() implies self.knows(
            #[trigger] self.displayed_ids()[i],
        ) by {
            assert(self.displayed_ids().contains(self.displayed_ids()[i]));
        }
        assert forall|i: int| 0 <= i < self.searchable_ids().len() implies self.knows(
            #[trigger] self.searchable_ids()[i],
        ) by {
            if self.searchable is All {
                let front = self.positions.filter(self.known_test());
                let back = all.filter(not_in(self.positions));
                if i < front.len() {
                    assert(front.contains(front[i]));
                } else {
                    assert(back.contains(back[i - front.len()]));
                }
            }
        }
    }

    /// Positions are dense in a valid model and the two lookups inverse to
    /// each other: the positions in use are those below the number of fields
    /// that have one, and `id` has the position `pos` exactly if it is the
    /// field at `pos`.
    pub proof fn lemma_positions(self, id: FieldId, pos: IndexedPos)
        requires
            self.valid(),
        ensures
            occupied(self.positions) == Set::new(|p: IndexedPos| p.0 < self.positions.len()),
            self.positions.len() == self.positions.to_set().len(),
            position_of(self.positions, id) == Some(pos) <==> field_at(self.positions, pos) == Some(id),
    {
        lemma_positions_dense(self.positions);
        lemma_lookups_inverse(self.positions, id, pos);
    }

    /// While every field is searchable, every known field is listed as
    /// searchable, and so is its name.
    pub proof fn lemma_all_lists_every_known(self, id: FieldId)
        requires
            self.valid(),
            self.searchable is All,
            self.knows(id),
        ensures
            self.searchable_ids().contains(id),
            self.searchable_names().contains(self.names[id.0 as int]),
    {
        let all = all_ids(self.names.len());
        let front = self.positions.filter(self.known_test());
        let back = all.filter(not_in(self.positions));
        let listed = self.searchable_ids();
        lemma_filter_keeps(all, not_in(self.positions));
        lemma_filter_keeps(self.positions, self.known_test());
        assert(all[id.0 as int] == id);
        if self.positions.contains(id) {
            assert(front.contains(id));
            let i = front.index_of(id);
            assert(listed[i] == id);
        } else {
            assert(back.contains(id));
            let i = back.index_of(id);
            assert(listed[front.len() + i] == id);
        }
        let at = listed.index_of(id);
        assert(self.searchable_names()[at] == self.names[id.0 as int]);
    }

    /// While every field is searchable, a name is listed as searchable from
    /// the moment it is interned, without anything else being done.
    pub proof fn lemma_interned_is_searchable(self, name: Seq<char>)
        requires
            self.valid(),
            self.searchable is All,
            has_room(self.names, name),
        ensures
            (SchemaView { names: interned(self.names, name), ..self }).searchable_names().contains(name),
    {
        let after = SchemaView { names: interned(self.names, name), ..self };
        lemma_interned(self.names, name);
        let at = after.names.index_of(name);
        assert(after.valid());
        after.lemma_all_lists_every_known(FieldId(at as u16));
    }
}

/// The identifiers of `n` names, in ascending order.
pub open spec fn all_ids(n: nat) -> Seq<FieldId> {
    Seq::new(n, |i: int| FieldId(i as u16))
}

/// The state of a schema as plain values, for a caller that stores schemas
/// or sends them: what [`Schema::snapshot`] gives and [`Schema::restore`]
/// takes. Every value of the type can be written down, but not every one is
/// the state of a schema: see [`SchemaView::valid`].
#[derive(Debug, PartialEq, Eq)]
pub struct Snapshot {
    /// The names, in the order of their identifiers.
    pub names: Vec<String>,
    /// The primary key, where one is set.
    pub primary_key: Option<FieldId>,
    /// The ranked fields.
    pub ranked: Vec<FieldId>,
    /// The displayed fields, or `None` where every field is displayed.
    pub displayed: Option<Vec<FieldId>>,
    /// The searchable fields, in the order in which they were given, or
    /// `None` where every field is searchable.
    pub searchable: Option<Vec<FieldId>>,
    /// The indexing order.
    pub positions: Vec<FieldId>,
}

impl Snapshot {
    /// The model of the schema that the snapshot describes. The order of the
    /// ranked and of the displayed fields does not count, nor how often one
    /// is listed.
    pub open spec fn model(&self) -> SchemaView {
        SchemaView {
            names: owned_texts(self.names@),
            primary_key: self.primary_key,
            ranked: self.ranked@.to_set(),
            displayed: match self.displayed {
                None => Selection::All,
                Some(ids) => Selection::Subset(ids@.to_set()),
            },
            searchable: match self.searchable {
                None => Selection::All,
                Some(ids) => Selection::Subset(ids@),
            },
            positions: self.positions@,
        }
    }
}

/// One more field of a list is among those taken: it and those before it.
proof fn lemma_take_one_more(ids: Seq<FieldId>, i: int)
    requires
        0 <= i < ids.len(),
    ensures
        forall|f: FieldId| #[trigger]
            ids.take(i + 1).contains(f) <==> (f == ids[i] || ids.take(i).contains(f)),
{
    let shorter = ids.take(i);
    let longer = ids.take(i + 1);
    assert(longer[i] == ids[i]);
    assert forall|f: FieldId| shorter.contains(f) implies longer.contains(f) by {
        let j = shorter.index_of(f);
        assert(longer[j] == f);
    }
    assert forall|f: FieldId| longer.contains(f) implies f == ids[i] || shorter.contains(f) by {
        let j = longer.index_of(f);
        if j < i {
            assert(shorter[j] == f);
        }
    }
}

/// The attribute schema of an index: the names of its fields with their
/// identifiers, the primary key, the ranked, the displayed and the searchable
/// fields, and the order in which fields are indexed.
///
/// Fields are never forgotten and identifiers never change. The primary key
/// and every field that a setting names are known fields. A field in the
/// indexing order need not be: [`Schema::insert_position_last`] takes any
/// identifier.
pub struct Schema {
    fields_map: FieldsMap,
    primary_key: Option<FieldId>,
    ranked: HashSet<u16>,
    displayed: Selection<BTreeSet<u16>>,
    searchable: Selection<Vec<FieldId>>,
    indexed_position: PositionMap,
}

/// The fields whose numbers are in `numbers`.
pub open spec fn fields(numbers: Set<u16>) -> Set<FieldId> {
    Set::new(|id: FieldId| numbers.contains(id.0))
}

impl View for Schema {
    type V = SchemaView;

    closed spec fn view(&self) -> SchemaView {
        SchemaView {
            names: self.fields_map@,
            primary_key: self.primary_key,
            ranked: fields(self.ranked@),
            displayed: match self.displayed {
                Selection::All => Selection::All,
                Selection::Subset(numbers) => Selection::Subset(fields(numbers@)),
            },
            searchable: match self.searchable {
                Selection::All => Selection::All,
                Selection::Subset(ids) => Selection::Subset(ids@),
            },
            positions: self.indexed_position@,
        }
    }
}

impl Schema {
    /// The invariant of the type: both maps are well formed and the model is
    /// valid.
    pub closed spec fn wf(&self) -> bool {
        &&& self.fields_map.wf()
        &&& self.indexed_position.wf()
        &&& self@.valid()
    }

    /// The model of a well-formed schema is valid.
    pub proof fn lemma_wf(&self)
        requires
            self.wf(),
        ensures
            self@.valid(),
    {
    }

    /// The schema that knows no field: no primary key, nothing ranked, every
    /// field displayed and searchable.
    pub fn new() -> (schema: Schema)
        ensures
            schema.wf(),
            schema@ == SchemaView::empty(),
    {
        let schema = Schema {
            fields_map: FieldsMap::new(),
            primary_key: None,
            ranked: HashSet::new(),
            displayed: Selection::All,
            searchable: Selection::All,
            indexed_position: PositionMap::new(),
        };
        assert(schema@ =~= SchemaView::empty());
        schema
    }

    /// The schema whose one field is the primary key `name`. The key gets the
    /// first identifier. It has no position, and every field is displayed and
    /// searchable.
    pub fn with_primary_key(name: &str) -> (schema: Schema)
        ensures
            schema.wf(),
            schema@ == (SchemaView {
                names: seq![name@],
                primary_key: Some(FieldId(0)),
                ..SchemaView::empty()
            }),
    {
        let mut fields_map = FieldsMap::new();
        let field_id = fields_map.insert(name).unwrap();
        let schema = Schema {
            fields_map,
            primary_key: Some(field_id),
            ranked: HashSet::new(),
            displayed: Selection::All,
            searchable: Selection::All,
            indexed_position: PositionMap::new(),
        };
        proof {
            assert(schema@.names =~= seq![name@]);
            assert(schema@ =~= (SchemaView {
                names: seq![name@],
                primary_key: Some(FieldId(0)),
                ..SchemaView::empty()
            }));
            assert(schema@.names[0] == name@);
        }
        schema
    }

    /// The name of the primary key, or `None` where none is set.
    pub fn primary_key(&self) -> (name: Option<&str>)
        requires
            self.wf(),
        ensures
            match name {
                Some(text) => self@.primary_key matches Some(id) && name_of(self@.names, id) == Some(
                    text@,
                ),
                None => self@.primary_key is None,
            },
    {
        match self.primary_key {
            Some(id) => self.fields_map.name(id),
            None => None,
        }
    }

    /// Makes `name` the primary key and returns its identifier, interning the
    /// name where it is new. The key gets no position and no setting changes.
    ///
    /// Fails with `PrimaryKeyAlreadyPresent` where a primary key is set, and
    /// with `MaxFieldsLimitExceeded` where `name` is new and no identifier is
    /// left. A failed call changes nothing.
    pub fn set_primary_key(&mut self, name: &str) -> (r: SResult<FieldId>)
        requires
            old(self).wf(),
        ensures
            final(self).wf(),
            match r {
                Ok(id) => {
                    &&& old(self)@.primary_key is None
                    &&& has_room(old(self)@.names, name@)
                    &&& id_of(final(self)@.names, name@) == Some(id)
                    &&& final(self)@ == (SchemaView {
                        names: interned(old(self)@.names, name@),
                        primary_key: Some(id),
                        ..old(self)@
                    })
                },
                Err(e) => {
                    &&& final(self)@ == old(self)@
                    &&& e == if old(self)@.primary_key is Some {
                        Error::PrimaryKeyAlreadyPresent
                    } else {
                        Error::MaxFieldsLimitExceeded
                    }
                    &&& old(self)@.primary_key is Some || !has_room(old(self)@.names, name@)
                },
            },
    {
        if self.primary_key.is_some() {
            return Err(Error::PrimaryKeyAlreadyPresent);
        }
        let id = match self.insert(name) {
            Ok(id) => id,
            Err(e) => {
                return Err(e);
            },
        };
        self.primary_key = Some(id);
        proof {
            lemma_interned(old(self)@.names, name@);
            assert(self@ =~= (SchemaView {
                names: interned(old(self)@.names, name@),
                primary_key: Some(id),
                ..old(self)@
            }));
        }
        Ok(id)
    }

    /// The identifier of `name`, or `None` where the name is not known.
    pub fn id(&self, name: &str) -> (id: Option<FieldId>)
        requires
            self.wf(),
        ensures
            id == id_of(self@.names, name@),
    {
        self.fields_map.id(name)
    }

    /// The name of `id`, or `None` where no name has this identifier.
    pub fn name(&self, id: FieldId) -> (name: Option<&str>)
        ensures
            match name {
                Some(text) => name_of(self@.names, id) == Some(text@),
                None => name_of(self@.names, id) is None,
            },
    {
        self.fields_map.name(id)
    }

    /// Every known name, in the order of the identifiers.
    pub fn names(&self) -> (names: Vec<&str>)
        ensures
            texts(names@) == self@.names,
    {
        self.fields_map.names()
    }

    /// Adds `name` to the known fields and returns its identifier. A known
    /// name keeps its identifier. Nothing else changes: a new field has no
    /// position and is in no list. Fails with `MaxFieldsLimitExceeded`, and
    /// changes nothing, where `name` is new and no identifier is left.
    pub fn insert(&mut self, name: &str) -> (r: SResult<FieldId>)
        requires
            old(self).wf(),
        ensures
            final(self).wf(),
            match r {
                Ok(id) => {
                    &&& has_room(old(self)@.names, name@)
                    &&& id_of(final(self)@.names, name@) == Some(id)
                    &&& final(self)@ == (SchemaView {
                        names: interned(old(self)@.names, name@),
                        ..old(self)@
                    })
                },
                Err(e) => {
                    &&& !has_room(old(self)@.names, name@)
                    &&& e == Error::MaxFieldsLimitExceeded
                    &&& final(self)@ == old(self)@
                },
            },
    {
        proof {
            lemma_interned(self@.names, name@);
        }
        let r = self.fields_map.insert(name);
        proof {
            self.fields_map.lemma_wf();
            assert(self@ =~= (SchemaView { names: self.fields_map@, ..old(self)@ }));
            assert(self@.valid());
        }
        r
    }

    /// Adds `name` to the known fields and gives it the last position, which
    /// is how a field that is seen for the first time enters the indexing
    /// order. Returns the identifier and the position.
    ///
    /// The field must not have a position yet: not the field of `name` where
    /// the name is known, and where it is new not the identifier that it is
    /// about to get, the count of the names. Fails with
    /// `MaxFieldsLimitExceeded`, and changes nothing, where `name` is new and
    /// no identifier is left.
    pub fn insert_with_position(&mut self, name: &str) -> (r: SResult<(FieldId, IndexedPos)>)
        requires
            old(self).wf(),
            !old(self)@.positions.contains(id_when_interned(old(self)@.names, name@)),
        ensures
            final(self).wf(),
            match r {
                Ok((id, pos)) => {
                    &&& has_room(old(self)@.names, name@)
                    &&& id == id_when_interned(old(self)@.names, name@)
                    &&& pos == IndexedPos(old(self)@.positions.len() as u16)
                    &&& final(self)@ == (SchemaView {
                        names: interned(old(self)@.names, name@),
                        positions: old(self)@.positions.push(id),
                        ..old(self)@
                    })
                },
                Err(e) => {
                    &&& !has_room(old(self)@.names, name@)
                    &&& e == Error::MaxFieldsLimitExceeded
                    &&& final(self)@ == old(self)@
                },
            },
    {
        let field_id = match self.insert(name) {
            Ok(id) => id,
            Err(e) => {
                return Err(e);
            },
        };
        proof {
            lemma_interned(old(self)@.names, name@);
        }
        let pos = self.insert_position_last(field_id);
        Ok((field_id, pos))
    }

    /// Gives `id` the last position and returns it. The field must not have a
    /// position yet.
    pub fn insert_position_last(&mut self, id: FieldId) -> (pos: IndexedPos)
        requires
            old(self).wf(),
            !old(self)@.positions.contains(id),
        ensures
            final(self).wf(),
            pos == IndexedPos(old(self)@.positions.len() as u16),
            position_of(final(self)@.positions, id) == Some(pos),
            final(self)@ == (SchemaView { positions: old(self)@.positions.push(id), ..old(self)@ }),
    {
        proof {
            lemma_order_has_room(self@.positions, id);
        }
        let position = self.indexed_position.len() as u16;
        self.indexed_position.push(id);
        proof {
            self.indexed_position.lemma_wf();
            lemma_position_is_index(self@.positions, position as int);
            assert(self@ =~= (SchemaView { positions: old(self)@.positions.push(id), ..old(self)@ }));
        }
        IndexedPos(position)
    }

    /// The numbers of the ranked fields.
    pub fn ranked(&self) -> (ranked: &HashSet<u16>)
        ensures
            fields(ranked@) == self@.ranked,
    {
        &self.ranked
    }

    /// Adds `name` to the known fields and to the ranked ones, and returns
    /// its identifier. Fails with `MaxFieldsLimitExceeded`, and changes
    /// nothing, where `name` is new and no identifier is left.
    pub fn set_ranked(&mut self, name: &str) -> (r: SResult<FieldId>)
        requires
            old(self).wf(),
        ensures
            final(self).wf(),
            match r {
                Ok(id) => {
                    &&& has_room(old(self)@.names, name@)
                    &&& id_of(final(self)@.names, name@) == Some(id)
                    &&& final(self)@ == (SchemaView {
                        names: interned(old(self)@.names, name@),
                        ranked: old(self)@.ranked.insert(id),
                        ..old(self)@
                    })
                },
                Err(e) => {
                    &&& !has_room(old(self)@.names, name@)
                    &&& e == Error::MaxFieldsLimitExceeded
                    &&& final(self)@ == old(self)@
                },
            },
    {
        let id = match self.insert(name) {
            Ok(id) => id,
            Err(e) => {
                return Err(e);
            },
        };
        self.ranked.insert(id.0);
        proof {
            lemma_interned(old(self)@.names, name@);
            assert(self@.ranked =~= old(self)@.ranked.insert(id));
            assert(self@ =~= (SchemaView {
                names: interned(old(self)@.names, name@),
                ranked: old(self)@.ranked.insert(id),
                ..old(self)@
            }));
        }
        Ok(id)
    }

    /// Makes no field ranked.
    pub fn clear_ranked(&mut self)
        requires
            old(self).wf(),
        ensures
            final(self).wf(),
            final(self)@ == (SchemaView { ranked: Set::empty(), ..old(self)@ }),
    {
        self.ranked.clear();
        proof {
            assert(self@.ranked =~= Set::<FieldId>::empty());
            assert(self@ =~= (SchemaView { ranked: Set::empty(), ..old(self)@ }));
        }
    }

    /// Whether `id` is ranked.
    pub fn is_ranked(&self, id: FieldId) -> (ranked: bool)
        ensures
            ranked == self@.is_ranked(id),
    {
        self.ranked.contains(&id.0)
    }

    /// Whether `id` is displayed: it is where every field is, and else where
    /// it is among the fields that were named.
    pub fn is_displayed(&self, id: FieldId) -> (displayed: bool)
        ensures
            displayed == self@.is_displayed(id),
    {
        match &self.displayed {
            Selection::Subset(displayed) => displayed.contains(&id.0),
            Selection::All => true,
        }
    }

    /// Whether every field is displayed.
    pub fn is_displayed_all(&self) -> (all: bool)
        ensures
            all == (self@.displayed is All),
    {
        match &self.displayed {
            Selection::Subset(_) => false,
            Selection::All => true,
        }
    }

    /// Whether every field is searchable.
    pub fn is_searchable_all(&self) -> (all: bool)
        ensures
            all == (self@.searchable is All),
    {
        match &self.searchable {
            Selection::Subset(_) => false,
            Selection::All => true,
        }
    }

    /// The position of `id`, or `None` where it has none.
    pub fn get_position(&self, id: FieldId) -> (pos: Option<IndexedPos>)
        requires
            self.wf(),
        ensures
            pos == position_of(self@.positions, id),
    {
        self.indexed_position.field_to_pos(id)
    }

    /// The field at `pos`, or `None` where `pos` is past the last field.
    pub fn indexed_pos_to_field_id(&self, pos: IndexedPos) -> (id: Option<FieldId>)
        ensures
            id == field_at(self@.positions, pos),
    {
        self.indexed_position.pos_to_field(pos)
    }

    /// The known fields that are displayed, in ascending order: every known
    /// field where all are displayed, else the fields that were named.
    pub fn displayed(&self) -> (ids: Vec<FieldId>)
        requires
            self.wf(),
        ensures
            ids@ == self@.displayed_ids(),
    {
        let count = self.fields_map.len();
        let ghost all = all_ids(self@.names.len());
        let ghost test = self@.displayed_test();
        let mut ids: Vec<FieldId> = Vec::new();
        let mut i: usize = 0;
        proof {
            self.fields_map.lemma_wf();
            assert(all.take(0).filter(test) =~= Seq::<FieldId>::empty()) by {
                reveal(Seq::filter);
            }
        }
        while i < count
            invariant
                i <= count == self@.names.len() <= u16::MAX,
                all == all_ids(self@.names.len()),
                test == self@.displayed_test(),
                ids@ == all.take(i as int).filter(test),
            decreases count - i,
        {
            let id = FieldId(i as u16);
            proof {
                assert(all.take(i + 1) =~= all.take(i as int).push(id));
                all.take(i as int).lemma_filter_push(id, test);
            }
            if self.is_displayed(id) {
                ids.push(id);
            }
            i += 1;
        }
        proof {
            assert(all.take(i as int) =~= all);
        }
        ids
    }

    /// The names of the known fields that are displayed, in the order of
    /// their identifiers: every known name where all fields are displayed.
    pub fn displayed_names(&self) -> (names: Vec<&str>)
        requires
            self.wf(),
        ensures
            texts(names@) == self@.displayed_names(),
    {
        let ids = self.displayed();
        proof {
            self@.lemma_lists();
        }
        self.names_for(&ids)
    }

    /// The searchable fields. Where fields were named, these are they, in
    /// the order given. Where every field is searchable, every known field is
    /// listed: first those that have a position, in the indexing order, then
    /// the others in ascending order.
    pub fn searchable_attributes(&self) -> (ids: Vec<FieldId>)
        requires
            self.wf(),
        ensures
            ids@ == self@.searchable_ids(),
    {
        match &self.searchable {
            Selection::Subset(searchable) => {
                let ids = searchable.clone();
                assert(ids@ =~= searchable@);
                ids
            },
            Selection::All => {
                let mut ids = self.positioned();
                let mut rest = self.unpositioned();
                ids.append(&mut rest);
                ids
            },
        }
    }

    /// The names of the searchable fields, in the order of
    /// [`Schema::searchable_attributes`].
    pub fn searchable_attributes_str(&self) -> (names: Vec<&str>)
        requires
            self.wf(),
        ensures
            texts(names@) == self@.searchable_names(),
    {
        let ids = self.searchable_attributes();
        proof {
            self@.lemma_lists();
        }
        self.names_for(&ids)
    }

    /// The known fields that have a position, in the indexing order.
    fn positioned(&self) -> (ids: Vec<FieldId>)
        requires
            self.wf(),
        ensures
            ids@ == self@.positions.filter(self@.known_test()),
    {
        let pairs = self.indexed_position.field_pos();
        let count = self.fields_map.len();
        let ghost order = self@.positions;
        let ghost test = self@.known_test();
        let mut ids: Vec<FieldId> = Vec::new();
        let mut i: usize = 0;
        proof {
            assert(order.take(0).filter(test) =~= Seq::<FieldId>::empty()) by {
                reveal(Seq::filter);
            }
        }
        while i < pairs.len()
            invariant
                i <= pairs@.len() == order.len(),
                count == self@.names.len(),
                test == self@.known_test(),
                forall|j: int| 0 <= j < order.len() ==> (#[trigger] pairs@[j]).0 == order[j],
                ids@ == order.take(i as int).filter(test),
            decreases pairs@.len() - i,
        {
            let id = pairs[i].0;
            proof {
                assert(order.take(i + 1) =~= order.take(i as int).push(id));
                order.take(i as int).lemma_filter_push(id, test);
            }
            if (id.0 as usize) < count {
                ids.push(id);
            }
            i += 1;
        }
        proof {
            assert(order.take(i as int) =~= order);
        }
        ids
    }

    /// The known fields that have no position, in ascending order.
    fn unpositioned(&self) -> (ids: Vec<FieldId>)
        requires
            self.wf(),
        ensures
            ids@ == all_ids(self@.names.len()).filter(not_in(self@.positions)),
    {
        let count = self.fields_map.len();
        let ghost all = all_ids(self@.names.len());
        let ghost test = not_in(self@.positions);
        let mut ids: Vec<FieldId> = Vec::new();
        let mut i: usize = 0;
        proof {
            self.fields_map.lemma_wf();
            assert(all.take(0).filter(test) =~= Seq::<FieldId>::empty()) by {
                reveal(Seq::filter);
            }
        }
        while i < count
            invariant
                self.wf(),
                i <= count == self@.names.len() <= u16::MAX,
                all == all_ids(self@.names.len()),
                test == not_in(self@.positions),
                ids@ == all.take(i as int).filter(test),
            decreases count - i,
        {
            let id = FieldId(i as u16);
            proof {
                assert(all.take(i + 1) =~= all.take(i as int).push(id));
                all.take(i as int).lemma_filter_push(id, test);
            }
            if self.get_position(id).is_none() {
                ids.push(id);
            }
            i += 1;
        }
        proof {
            assert(all.take(i as int) =~= all);
        }
        ids
    }

    /// The names of `ids`, which are known.
    fn names_for(&self, ids: &Vec<FieldId>) -> (names: Vec<&str>)
        requires
            forall|i: int| 0 <= i < ids@.len() ==> self@.knows(#[trigger] ids@[i]),
        ensures
            texts(names@) == self@.names_of(ids@),
    {
        let mut names: Vec<&str> = Vec::with_capacity(ids.len());
        let mut i: usize = 0;
        while i < ids.len()
            invariant
                i <= ids@.len(),
                names@.len() == i,
                forall|j: int| 0 <= j < ids@.len() ==> self@.knows(#[trigger] ids@[j]),
                forall|j: int| 0 <= j < i ==> (#[trigger] names@[j])@ == self@.names[ids@[j].0 as int],
            decreases ids@.len() - i,
        {
            assert(self@.knows(ids@[i as int]));
            names.push(self.fields_map.name(ids[i]).unwrap());
            i += 1;
        }
        proof {
            assert(texts(names@) =~= self@.names_of(ids@));
        }
        names
    }

    /// Makes the fields of `data` the ranked ones, interning the names that
    /// are new. A name that comes twice counts once.
    ///
    /// Fails with `MaxFieldsLimitExceeded`, and changes nothing, where the
    /// identifiers do not suffice for the new names.
    pub fn update_ranked(&mut self, data: Vec<&str>) -> (r: SResult<()>)
        requires
            old(self).wf(),
        ensures
            final(self).wf(),
            match r {
                Ok(_) => {
                    &&& have_room(old(self)@.names, texts(data@))
                    &&& final(self)@ == (SchemaView {
                        names: interned_all(old(self)@.names, texts(data@)),
                        ranked: ids_of(final(self)@.names, texts(data@)).to_set(),
                        ..old(self)@
                    })
                },
                Err(e) => {
                    &&& !have_room(old(self)@.names, texts(data@))
                    &&& e == Error::MaxFieldsLimitExceeded
                    &&& final(self)@ == old(self)@
                },
            },
    {
        let ids = match self.intern_all(&data) {
            Ok(ids) => ids,
            Err(e) => {
                return Err(e);
            },
        };
        let ghost known = self@;
        self.ranked.clear();
        let mut i: usize = 0;
        while i < ids.len()
            invariant
                i <= ids@.len(),
                forall|k: u16| #[trigger] self.ranked@.contains(k) <==> ids@.take(i as int).contains(FieldId(k)),
                self@ == (SchemaView { ranked: fields(self.ranked@), ..known }),
                self.fields_map.wf(),
                self.indexed_position.wf(),
                known.valid(),
                forall|j: int| 0 <= j < ids@.len() ==> known.knows(#[trigger] ids@[j]),
            decreases ids@.len() - i,
        {
            self.ranked.insert(ids[i].0);
            proof {
                lemma_take_one_more(ids@, i as int);
                assert(self@ =~= (SchemaView { ranked: fields(self.ranked@), ..known }));
            }
            i += 1;
        }
        proof {
            assert(ids@.take(i as int) =~= ids@);
            assert(fields(self.ranked@) =~= ids@.to_set());
            assert(self@ =~= (SchemaView { ranked: ids@.to_set(), ..known }));
        }
        Ok(())
    }

    /// Makes the fields of `data` the displayed ones, and no others,
    /// interning the names that are new. Fields that come later are not
    /// displayed. A name that comes twice counts once.
    ///
    /// Fails with `MaxFieldsLimitExceeded`, and changes nothing, where the
    /// identifiers do not suffice for the new names.
    pub fn update_displayed(&mut self, data: Vec<&str>) -> (r: SResult<()>)
        requires
            old(self).wf(),
        ensures
            final(self).wf(),
            match r {
                Ok(_) => {
                    &&& have_room(old(self)@.names, texts(data@))
                    &&& final(self)@ == (SchemaView {
                        names: interned_all(old(self)@.names, texts(data@)),
                        displayed: Selection::Subset(ids_of(final(self)@.names, texts(data@)).to_set()),
                        ..old(self)@
                    })
                },
                Err(e) => {
                    &&& !have_room(old(self)@.names, texts(data@))
                    &&& e == Error::MaxFieldsLimitExceeded
                    &&& final(self)@ == old(self)@
                },
            },
    {
        let ids = match self.intern_all(&data) {
            Ok(ids) => ids,
            Err(e) => {
                return Err(e);
            },
        };
        let mut displayed: BTreeSet<u16> = BTreeSet::new();
        let mut i: usize = 0;
        while i < ids.len()
            invariant
                i <= ids@.len(),
                forall|k: u16| #[trigger] displayed@.contains(k) <==> ids@.take(i as int).contains(FieldId(k)),
            decreases ids@.len() - i,
        {
            displayed.insert(ids[i].0);
            proof {
                lemma_take_one_more(ids@, i as int);
            }
            i += 1;
        }
        proof {
            assert(ids@.take(i as int) =~= ids@);
            assert(fields(displayed@) =~= ids@.to_set());
        }
        let ghost known = self@;
        self.displayed = Selection::Subset(displayed);
        proof {
            assert(self@ =~= (SchemaView { displayed: Selection::Subset(ids@.to_set()), ..known }));
        }
        Ok(())
    }

    /// Makes the fields of `data` the searchable ones, in the order of
    /// `data`, interning the names that are new. Fields that come later are
    /// not searchable.
    ///
    /// The indexing order follows: each field of `data` is placed, the first
    /// one first, at the position that is its index in `data` (see
    /// [`repositioned`]). Where the names differ pairwise, the fields of
    /// `data` so come to stand in front, in the order of `data`, and the other
    /// fields behind them in the order that they had.
    ///
    /// Fails with `MaxFieldsLimitExceeded`, and changes nothing, where the
    /// identifiers do not suffice for the new names.
    pub fn update_searchable(&mut self, data: Vec<&str>) -> (r: SResult<()>)
        requires
            old(self).wf(),
        ensures
            final(self).wf(),
            match r {
                Ok(_) => {
                    let ids = ids_of(final(self)@.names, texts(data@));
                    &&& have_room(old(self)@.names, texts(data@))
                    &&& final(self)@ == (SchemaView {
                        names: interned_all(old(self)@.names, texts(data@)),
                        searchable: Selection::Subset(ids),
                        positions: repositioned(old(self)@.positions, ids),
                        ..old(self)@
                    })
                    &&& texts(data@).no_duplicates() ==> final(self)@.positions == ids
                        + old(self)@.positions.filter(not_in(ids))
                },
                Err(e) => {
                    &&& !have_room(old(self)@.names, texts(data@))
                    &&& e == Error::MaxFieldsLimitExceeded
                    &&& final(self)@ == old(self)@
                },
            },
    {
        let ids = match self.intern_all(&data) {
            Ok(ids) => ids,
            Err(e) => {
                return Err(e);
            },
        };
        let ghost known = self@;
        let ghost order = self@.positions;
        let mut pos: usize = 0;
        while pos < ids.len()
            invariant
                pos <= ids@.len(),
                order.no_duplicates(),
                self.indexed_position.wf(),
                self.indexed_position@ == repositioned(order, ids@.take(pos as int)),
                self@ == (SchemaView { positions: self.indexed_position@, ..known }),
                self.fields_map.wf(),
                known.valid(),
                forall|j: int| 0 <= j < ids@.len() ==> known.knows(#[trigger] ids@[j]),
            decreases ids@.len() - pos,
        {
            let id = ids[pos];
            let len = self.indexed_position.len();
            let ghost middle = self.indexed_position@;
            proof {
                self.indexed_position.lemma_wf();
                lemma_without(middle, id);
                if !middle.contains(id) {
                    lemma_order_has_room(middle, id);
                }
            }
            // A place past the end means the end.
            let target: u16 = if pos < len {
                pos as u16
            } else if len <= u16::MAX as usize {
                len as u16
            } else {
                u16::MAX
            };
            self.indexed_position.insert(id, IndexedPos(target));
            proof {
                if pos >= len {
                    lemma_relocated_to_end(middle, id, target as int);
                    lemma_relocated_to_end(middle, id, pos as int);
                }
                assert(ids@.take(pos + 1).drop_last() =~= ids@.take(pos as int));
                assert(self@ =~= (SchemaView { positions: self.indexed_position@, ..known }));
            }
            pos += 1;
        }
        proof {
            assert(ids@.take(pos as int) =~= ids@);
            lemma_repositioned(order, ids@);
            if texts(data@).no_duplicates() {
                lemma_interned_all(old(self)@.names, texts(data@));
                assert forall|i: int| 0 <= i < texts(data@).len() implies known.names.contains(
                    #[trigger] texts(data@)[i],
                ) by {
                    assert(texts(data@).contains(texts(data@)[i]));
                }
                lemma_ids_of_distinct(known.names, texts(data@));
                lemma_repositioned_distinct(order, ids@);
            }
        }
        let ghost placed = self@;
        self.searchable = Selection::Subset(ids);
        proof {
            assert(self@ =~= (SchemaView { searchable: Selection::Subset(ids@), ..placed }));
        }
        Ok(())
    }

    /// Interns every name of `data` or, where the identifiers do not suffice,
    /// none. Returns the identifiers of the names, which are then all known.
    fn intern_all(&mut self, data: &Vec<&str>) -> (r: SResult<Vec<FieldId>>)
        requires
            old(self).wf(),
        ensures
            final(self).wf(),
            match r {
                Ok(ids) => {
                    &&& have_room(old(self)@.names, texts(data@))
                    &&& ids@ == ids_of(final(self)@.names, texts(data@))
                    &&& forall|i: int| 0 <= i < ids@.len() ==> final(self)@.knows(#[trigger] ids@[i])
                    &&& final(self)@ == (SchemaView {
                        names: interned_all(old(self)@.names, texts(data@)),
                        ..old(self)@
                    })
                },
                Err(e) => {
                    &&& !have_room(old(self)@.names, texts(data@))
                    &&& e == Error::MaxFieldsLimitExceeded
                    &&& final(self)@ == old(self)@
                },
            },
    {
        proof {
            lemma_interned_all(self@.names, texts(data@));
        }
        let r = self.fields_map.insert_all(data);
        proof {
            self.fields_map.lemma_wf();
            assert(self@ =~= (SchemaView { names: self.fields_map@, ..old(self)@ }));
            if r is Ok {
                assert forall|i: int| 0 <= i < texts(data@).len() implies self@.names.contains(
                    #[trigger] texts(data@)[i],
                ) by {
                    assert(texts(data@).contains(texts(data@)[i]));
                }
                lemma_ids_of(self@.names, texts(data@));
            }
        }
        r
    }

    /// Makes every field searchable, those that come later too. The indexing
    /// order stays as it is.
    pub fn set_all_fields_as_indexed(&mut self)
        requires
            old(self).wf(),
        ensures
            final(self).wf(),
            final(self)@ == (SchemaView { searchable: Selection::All, ..old(self)@ }),
    {
        self.searchable = Selection::All;
        proof {
            assert(self@ =~= (SchemaView { searchable: Selection::All, ..old(self)@ }));
        }
    }

    /// Makes every field displayed, those that come later too.
    pub fn set_all_fields_as_displayed(&mut self)
        requires
            old(self).wf(),
        ensures
            final(self).wf(),
            final(self)@ == (SchemaView { displayed: Selection::All, ..old(self)@ }),
    {
        self.displayed = Selection::All;
        proof {
            assert(self@ =~= (SchemaView { displayed: Selection::All, ..old(self)@ }));
        }
    }

    /// The state of the schema as plain values. The ranked and the displayed
    /// fields are listed in ascending order, each once. A schema restored from
    /// the snapshot has the model of this one.
    pub fn snapshot(&self) -> (state: Snapshot)
        requires
            self.wf(),
        ensures
            state.model() == self@,
            state.model().valid(),
            state.ranked@ == self@.ranked_ids(),
            state.displayed matches Some(ids) ==> ids@ == self@.displayed_ids(),
    {
        let borrowed = self.fields_map.names();
        let mut names: Vec<String> = Vec::with_capacity(borrowed.len());
        let mut i: usize = 0;
        while i < borrowed.len()
            invariant
                i <= borrowed@.len(),
                names@.len() == i,
                forall|j: int| 0 <= j < i ==> (#[trigger] names@[j])@ == borrowed@[j]@,
            decreases borrowed@.len() - i,
        {
            names.push(borrowed[i].to_owned());
            i += 1;
        }
        let pairs = self.indexed_position.field_pos();
        let mut positions: Vec<FieldId> = Vec::with_capacity(pairs.len());
        let mut p: usize = 0;
        while p < pairs.len()
            invariant
                p <= pairs@.len(),
                positions@.len() == p,
                forall|j: int| 0 <= j < p ==> #[trigger] positions@[j] == pairs@[j].0,
            decreases pairs@.len() - p,
        {
            positions.push(pairs[p].0);
            p += 1;
        }
        let displayed = match &self.displayed {
            Selection::All => None,
            Selection::Subset(_) => Some(self.displayed()),
        };
        let searchable = match &self.searchable {
            Selection::All => None,
            Selection::Subset(ids) => {
                let copy = ids.clone();
                assert(copy@ =~= ids@);
                Some(copy)
            },
        };
        let state = Snapshot {
            names,
            primary_key: self.primary_key,
            ranked: self.ranked_list(),
            displayed,
            searchable,
            positions,
        };
        proof {
            self@.lemma_lists();
            assert(state.model().names =~= self@.names) by {
                assert forall|j: int| 0 <= j < self@.names.len() implies state.model().names[j]
                    == self@.names[j] by {
                    assert(texts(borrowed@)[j] == borrowed@[j]@);
                }
            }
            assert(state.model().positions =~= self@.positions);
            assert(state.model().ranked =~= self@.ranked) by {
                let all = all_ids(self@.names.len());
                lemma_filter_keeps(all, self@.ranked_test());
                assert forall|id: FieldId| self@.ranked.contains(id) implies all.contains(id) by {
                    assert(all[id.0 as int] == id);
                }
            }
            if let Selection::Subset(ids) = self@.displayed {
                assert(self@.displayed_ids().to_set() =~= ids);
            }
            assert(state.model() =~= self@);
        }
        state
    }

    /// The ranked fields in ascending order.
    fn ranked_list(&self) -> (ids: Vec<FieldId>)
        requires
            self.wf(),
        ensures
            ids@ == self@.ranked_ids(),
    {
        let count = self.fields_map.len();
        let ghost all = all_ids(self@.names.len());
        let ghost test = self@.ranked_test();
        let mut ids: Vec<FieldId> = Vec::new();
        let mut i: usize = 0;
        proof {
            self.fields_map.lemma_wf();
            assert(all.take(0).filter(test) =~= Seq::<FieldId>::empty()) by {
                reveal(Seq::filter);
            }
        }
        while i < count
            invariant
                i <= count == self@.names.len() <= u16::MAX,
                all == all_ids(self@.names.len()),
                test == self@.ranked_test(),
                ids@ == all.take(i as int).filter(test),
            decreases count - i,
        {
            let id = FieldId(i as u16);
            proof {
                assert(all.take(i + 1) =~= all.take(i as int).push(id));
                all.take(i as int).lemma_filter_push(id, test);
            }
            if self.is_ranked(id) {
                ids.push(id);
            }
            i += 1;
        }
        proof {
            assert(all.take(i as int) =~= all);
        }
        ids
    }

    /// The schema that `state` describes, or `None` where it describes none:
    /// where a name comes twice or there are more names than identifiers to
    /// issue, where a field has two positions, or where the primary key or a
    /// field of a setting is not the identifier of a name.
    pub fn restore(state: &Snapshot) -> (r: Option<Schema>)
        ensures
            match r {
                Some(schema) => state.model().valid() && schema.wf() && schema@ == state.model(),
                None => !state.model().valid(),
            },
    {
        let ghost model = state.model();
        let fields_map = match Self::restore_names(&state.names) {
            Some(map) => map,
            None => {
                return None;
            },
        };
        let indexed_position = match Self::restore_positions(&state.positions) {
            Some(map) => map,
            None => {
                return None;
            },
        };
        let count = fields_map.len();
        assert(fields_map@ =~= model.names);
        if let Some(id) = state.primary_key {
            if id.0 as usize >= count {
                return None;
            }
        }
        if !Self::all_below(&state.ranked, count) {
            proof {
                let i = choose|i: int| 0 <= i < state.ranked@.len() && state.ranked@[i].0 >= count;
                assert(state.ranked@.contains(state.ranked@[i]));
                assert(model.ranked.contains(state.ranked@[i]));
                assert(!model.knows(state.ranked@[i]));
            }
            return None;
        }
        let mut ranked: HashSet<u16> = HashSet::new();
        let mut i: usize = 0;
        while i < state.ranked.len()
            invariant
                i <= state.ranked@.len(),
                forall|k: u16| #[trigger]
                    ranked@.contains(k) <==> state.ranked@.take(i as int).contains(FieldId(k)),
            decreases state.ranked@.len() - i,
        {
            ranked.insert(state.ranked[i].0);
            proof {
                lemma_take_one_more(state.ranked@, i as int);
            }
            i += 1;
        }
        proof {
            assert(state.ranked@.take(i as int) =~= state.ranked@);
            assert(fields(ranked@) =~= model.ranked);
        }
        let displayed = match &state.displayed {
            None => Selection::All,
            Some(ids) => {
                if !Self::all_below(ids, count) {
                    proof {
                        let i = choose|i: int| 0 <= i < ids@.len() && ids@[i].0 >= count;
                        assert(ids@.contains(ids@[i]));
                        assert(model.displayed->Subset_0.contains(ids@[i]));
                        assert(!(forall|id: FieldId| #[trigger]
                            model.displayed->Subset_0.contains(id) ==> model.knows(id)));
                    }
                    return None;
                }
                let mut numbers: BTreeSet<u16> = BTreeSet::new();
                let mut i: usize = 0;
                while i < ids.len()
                    invariant
                        i <= ids@.len(),
                        forall|k: u16| #[trigger]
                            numbers@.contains(k) <==> ids@.take(i as int).contains(FieldId(k)),
                    decreases ids@.len() - i,
                {
                    numbers.insert(ids[i].0);
                    proof {
                        lemma_take_one_more(ids@, i as int);
                    }
                    i += 1;
                }
                proof {
                    assert(ids@.take(i as int) =~= ids@);
                    assert(fields(numbers@) =~= ids@.to_set());
                }
                Selection::Subset(numbers)
            },
        };
        let searchable = match &state.searchable {
            None => Selection::All,
            Some(ids) => {
                if !Self::all_below(ids, count) {
                    proof {
                        let i = choose|i: int| 0 <= i < ids@.len() && ids@[i].0 >= count;
                        assert(!model.knows(model.searchable->Subset_0[i]));
                        assert(!(forall|j: int|
                            0 <= j < model.searchable->Subset_0.len() ==> model.knows(
                                #[trigger] model.searchable->Subset_0[j],
                            )));
                    }
                    return None;
                }
                let copy = ids.clone();
                assert(copy@ =~= ids@);
                Selection::Subset(copy)
            },
        };
        let schema = Schema {
            fields_map,
            primary_key: state.primary_key,
            ranked,
            displayed,
            searchable,
            indexed_position,
        };
        proof {
            schema.fields_map.lemma_wf();
            schema.indexed_position.lemma_wf();
            assert(schema@ =~= model);
            assert forall|id: FieldId| #[trigger] model.ranked.contains(id) implies model.knows(id) by {
                let i = state.ranked@.index_of(id);
                assert(state.ranked@[i] == id);
            }
            if let Selection::Subset(shown) = model.displayed {
                let ids = state.displayed->Some_0@;
                assert forall|id: FieldId| #[trigger] shown.contains(id) implies model.knows(id) by {
                    let i = ids.index_of(id);
                    assert(ids[i] == id);
                }
            }
        }
        Some(schema)
    }

    /// The interner of `names`, where no name comes twice and the
    /// identifiers suffice.
    fn restore_names(names: &Vec<String>) -> (r: Option<FieldsMap>)
        ensures
            match r {
                Some(map) => map.wf() && map@ == owned_texts(names@),
                None => !owned_texts(names@).no_duplicates() || owned_texts(names@).len() > max_fields(),
            },
    {
        let ghost list = owned_texts(names@);
        let mut map = FieldsMap::new();
        let mut i: usize = 0;
        proof {
            assert(list.take(0) =~= Seq::<Seq<char>>::empty());
        }
        while i < names.len()
            invariant
                i <= names@.len(),
                list == owned_texts(names@),
                map.wf(),
                map@ == list.take(i as int),
            decreases names@.len() - i,
        {
            proof {
                map.lemma_wf();
                assert(list[i as int] == names@[i as int]@);
            }
            match map.insert(names[i].as_str()) {
                Ok(id) => {
                    if id.0 as usize != i {
                        proof {
                            // the name stands further in front too
                            let j = list.take(i as int).index_of(list[i as int]);
                            assert(list[j] == list[i as int]);
                        }
                        return None;
                    }
                    assert(map@ =~= list.take(i + 1));
                },
                Err(_) => {
                    return None;
                },
            }
            i += 1;
        }
        proof {
            map.lemma_wf();
            assert(list.take(i as int) =~= list);
        }
        Some(map)
    }

    /// The position map of `order`, where no field comes twice.
    fn restore_positions(order: &Vec<FieldId>) -> (r: Option<PositionMap>)
        ensures
            match r {
                Some(map) => map.wf() && map@ == order@,
                None => !order@.no_duplicates(),
            },
    {
        let mut map = PositionMap::new();
        let mut i: usize = 0;
        proof {
            assert(order@.take(0) =~= Seq::<FieldId>::empty());
        }
        while i < order.len()
            invariant
                i <= order@.len(),
                map.wf(),
                map@ == order@.take(i as int),
            decreases order@.len() - i,
        {
            if map.field_to_pos(order[i]).is_some() {
                proof {
                    let j = order@.take(i as int).index_of(order@[i as int]);
                    assert(order@[j] == order@[i as int]);
                }
                return None;
            }
            map.push(order[i]);
            assert(map@ =~= order@.take(i + 1));
            i += 1;
        }
        proof {
            map.lemma_wf();
            assert(order@.take(i as int) =~= order@);
        }
        Some(map)
    }

    /// Whether every field of `ids` has a number below `count`.
    fn all_below(ids: &Vec<FieldId>, count: usize) -> (all: bool)
        ensures
            all == forall|i: int| 0 <= i < ids@.len() ==> (#[trigger] ids@[i]).0 < count,
    {
        let mut i: usize = 0;
        while i < ids.len()
            invariant
                i <= ids@.len(),
                forall|j: int| 0 <= j < i ==> (#[trigger] ids@[j]).0 < count,
            decreases ids@.len() - i,
        {
            if ids[i].0 as usize >= count {
                return false;
            }
            i += 1;
        }
        true
    }
}

impl Clone for Schema {
    fn clone(&self) -> (schema: Schema)
        ensures
            self.wf() ==> schema.wf() && schema@ == self@,
    {
        let count = self.fields_map.len();
        let mut ranked: HashSet<u16> = HashSet::new();
        let mut i: usize = 0;
        while i < count && i <= u16::MAX as usize
            invariant
                i <= u16::MAX + 1,
                i <= count == self@.names.len(),
                forall|k: u16| #[trigger] ranked@.contains(k) <==> self.ranked@.contains(k) && k < i,
            decreases count - i,
        {
            if self.ranked.contains(&(i as u16)) {
                ranked.insert(i as u16);
            }
            i += 1;
        }
        let displayed = match &self.displayed {
            Selection::All => Selection::All,
            Selection::Subset(numbers) => Selection::Subset(numbers.clone()),
        };
        let searchable = match &self.searchable {
            Selection::All => Selection::All,
            Selection::Subset(ids) => {
                let copy = ids.clone();
                assert(copy@ =~= ids@);
                Selection::Subset(copy)
            },
        };
        let schema = Schema {
            fields_map: self.fields_map.clone(),
            primary_key: self.primary_key,
            ranked,
            displayed,
            searchable,
            indexed_position: self.indexed_position.clone(),
        };
        proof {
            if self.wf() {
                assert forall|k: u16| self.ranked@.contains(k) implies k < i by {
                    assert(self@.ranked.contains(FieldId(k)));
                }
                assert(schema.ranked@ =~= self.ranked@);
                assert(schema@ =~= self@);
            }
        }
        schema
    }
}

impl Default for Schema {
    fn default() -> (schema: Schema)
        ensures
            schema.wf(),
            schema@ == SchemaView::empty(),
    {
        Schema::new()
    }
}

} // verus!
