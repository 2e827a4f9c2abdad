//! The interner: field names and their identifiers.
//!
//! The model of a [`FieldsMap`] is the sequence of its names in the order in
//! which they came: the name at index `i` has the identifier `i`. A well-formed
//! map holds no name twice, so names and identifiers stand one to one.
use crate::{Error, FieldId, SResult};
use vstd::hash_map::StringHashMap;
use vstd::prelude::*;

verus! {

/// The most names a map can hold. The largest value of [`FieldId`] is not
/// issued, so this is one less than the number of values of the type.
pub open spec fn max_fields() -> int {
    u16::MAX as int
}

/// The identifier of `name` among `names`, where it is known.
pub open spec fn id_of(names: Seq<Seq<char>>, name: Seq<char>) -> Option<FieldId> {
    if names.contains(name) {
        Some(FieldId(names.index_of(name) as u16))
    } else {
        None
    }
}

/// The name that `id` stands for among `names`, where it stands for one.
pub open spec fn name_of(names: Seq<Seq<char>>, id: FieldId) -> Option<Seq<char>> {
    if id.0 < names.len() {
        Some(names[id.0 as int])
    } else {
        None
    }
}

/// The identifier that `name` has once it is interned: the one it has, or
/// for a new name the count of the names before it.
pub open spec fn id_when_interned(names: Seq<Seq<char>>, name: Seq<char>) -> FieldId {
    match id_of(names, name) {
        Some(id) => id,
        None => FieldId(names.len() as u16),
    }
}

/// Whether `name` can be interned: it is known, or an identifier is left for it.
pub open spec fn has_room(names: Seq<Seq<char>>, name: Seq<char>) -> bool {
    names.contains(name) || names.len() < max_fields()
}

/// `names` after `name` was interned: a new name goes to the end.
pub open spec fn interned(names: Seq<Seq<char>>, name: Seq<char>) -> Seq<Seq<char>> {
    if names.contains(name) {
        names
    } else {
        names.push(name)
    }
}

/// `names` after each name of `list` was interned, the first one first.
pub open spec fn interned_all(names: Seq<Seq<char>>, list: Seq<Seq<char>>) -> Seq<Seq<char>>
    decreases list.len(),
{
    if list.len() == 0 {
        names
    } else {
        interned(interned_all(names, list.drop_last()), list.last())
    }
}

/// Whether all of `list` can be interned: identifiers are left for its new names.
pub open spec fn have_room(names: Seq<Seq<char>>, list: Seq<Seq<char>>) -> bool {
    interned_all(names, list).len() <= max_fields()
}

/// The identifiers that the names of `list` have among `names`.
pub open spec fn ids_of(names: Seq<Seq<char>>, list: Seq<Seq<char>>) -> Seq<FieldId> {
    Seq::new(list.len(), |i: int| FieldId(names.index_of(list[i]) as u16))
}

/// The texts of a list of strings.
pub open spec fn texts(list: Seq<&str>) -> Seq<Seq<char>> {
    Seq::new(list.len(), |i: int| list[i]@)
}

/// The texts of a list of owned strings.
pub open spec fn owned_texts(list: Seq<String>) -> Seq<Seq<char>> {
    Seq::new(list.len(), |i: int| list[i]@)
}

/// The identifier of a known name is the one index at which the name stands.
pub proof fn lemma_id_is_index(names: Seq<Seq<char>>, i: int)
    requires
        names.no_duplicates(),
        names.len() <= max_fields(),
        0 <= i < names.len(),
    ensures
        names.contains(names[i]),
        names.index_of(names[i]) == i,
        id_of(names, names[i]) == Some(FieldId(i as u16)),
        name_of(names, FieldId(i as u16)) == Some(names[i]),
{
}

/// Interning keeps every name where it was, so every identifier stays with
/// its name. A new name gets the count of the names before it as identifier;
/// a known one keeps the identifier it had.
pub proof fn lemma_interned(names: Seq<Seq<char>>, name: Seq<char>)
    requires
        names.no_duplicates(),
    ensures
        interned(names, name).no_duplicates(),
        interned(names, name).contains(name),
        names.len() <= interned(names, name).len() <= names.len() + 1,
        interned(names, name).take(names.len() as int) == names,
        forall|other: Seq<char>|
            interned(names, name).contains(other) <==> (other == name || names.contains(other)),
        forall|other: Seq<char>|
            names.contains(other) ==> interned(names, name).index_of(other) == names.index_of(other),
        !names.contains(name) ==> interned(names, name).index_of(name) == names.len(),
{
    let after = interned(names, name);
    assert(after.take(names.len() as int) =~= names);
    assert forall|other: Seq<char>| names.contains(other) implies after.contains(other)
        && after.index_of(other) == names.index_of(other) by {
        let i = names.index_of(other);
        assert(after[i] == other);
    }
    if !names.contains(name) {
        assert(after[names.len() as int] == name);
        assert forall|other: Seq<char>| after.contains(other) implies other == name || names.contains(
            other,
        ) by {
            let i = after.index_of(other);
            if i < names.len() {
                assert(names[i] == other);
            }
        }
    }
}

/// Interning a list keeps every name where it was and makes every name of
/// the list known.
pub proof fn lemma_interned_all(names: Seq<Seq<char>>, list: Seq<Seq<char>>)
    requires
        names.no_duplicates(),
    ensures
        interned_all(names, list).no_duplicates(),
        names.len() <= interned_all(names, list).len() <= names.len() + list.len(),
        interned_all(names, list).take(names.len() as int) == names,
        forall|other: Seq<char>|
            interned_all(names, list).contains(other) <==> (list.contains(other) || names.contains(
                other,
            )),
        forall|other: Seq<char>|
            names.contains(other) ==> interned_all(names, list).index_of(other) == names.index_of(
                other,
            ),
    decreases list.len(),
{
    if list.len() > 0 {
        let front = list.drop_last();
        let middle = interned_all(names, front);
        let after = interned_all(names, list);
        lemma_interned_all(names, front);
        lemma_interned(middle, list.last());
        assert(after.take(names.len() as int) =~= middle.take(names.len() as int)) by {
            assert(after.take(middle.len() as int) == middle);
        }
        assert forall|other: Seq<char>| list.contains(other) implies after.contains(other) by {
            let i = list.index_of(other);
            if i < front.len() {
                assert(front[i] == other);
                assert(front.contains(other));
                assert(middle.contains(other));
            }
        }
        assert forall|other: Seq<char>| after.contains(other) implies list.contains(other)
            || names.contains(other) by {
            if other == list.last() {
                assert(list[list.len() - 1] == other);
            } else if front.contains(other) {
                let i = front.index_of(other);
                assert(list[i] == other);
            }
        }
    } else {
        assert(names.take(names.len() as int) =~= names);
    }
}

/// The identifiers of names that are all known are identifiers of `names`,
/// each that of its name.
pub proof fn lemma_ids_of(names: Seq<Seq<char>>, list: Seq<Seq<char>>)
    requires
        names.no_duplicates(),
        names.len() <= max_fields(),
        forall|i: int| 0 <= i < list.len() ==> names.contains(#[trigger] list[i]),
    ensures
        ids_of(names, list).len() == list.len(),
        forall|i: int|
            0 <= i < list.len() ==> (#[trigger] ids_of(names, list)[i]).0 < names.len() && id_of(
                names,
                list[i],
            ) == Some(ids_of(names, list)[i]) && name_of(names, ids_of(names, list)[i]) == Some(list[i]),
{
    assert forall|i: int| 0 <= i < list.len() implies (#[trigger] ids_of(names, list)[i]).0
        < names.len() && id_of(names, list[i]) == Some(ids_of(names, list)[i]) && name_of(
        names,
        ids_of(names, list)[i],
    ) == Some(list[i]) by {
        assert(names.contains(list[i]));
        let at = names.index_of(list[i]);
        lemma_id_is_index(names, at);
    }
}

/// Names that differ have identifiers that differ.
pub proof fn lemma_ids_of_distinct(names: Seq<Seq<char>>, list: Seq<Seq<char>>)
    requires
        names.no_duplicates(),
        names.len() <= max_fields(),
        forall|i: int| 0 <= i < list.len() ==> names.contains(#[trigger] list[i]),
        list.no_duplicates(),
    ensures
        ids_of(names, list).no_duplicates(),
{
    lemma_ids_of(names, list);
    let ids = ids_of(names, list);
    assert forall|i: int, j: int| 0 <= i < ids.len() && 0 <= j < ids.len() && i != j implies ids[i]
        != ids[j] by {
        assert(name_of(names, ids[i]) == Some(list[i]));
        assert(name_of(names, ids[j]) == Some(list[j]));
    }
}

/// The more of a list is interned, the more names there are.
pub proof fn lemma_interned_all_grows(names: Seq<Seq<char>>, list: Seq<Seq<char>>, k: int)
    requires
        0 <= k <= list.len(),
    ensures
        interned_all(names, list.take(k)).len() <= interned_all(names, list).len(),
    decreases list.len() - k,
{
    if k < list.len() {
        lemma_interned_all_grows(names, list, k + 1);
        assert(list.take(k + 1).drop_last() =~= list.take(k));
    } else {
        assert(list.take(k) =~= list);
    }
}

/// Names that are interned one by one into an empty map get the identifiers
/// `0, 1, 2, ...` in the order in which they come, whatever they are, as long
/// as they differ.
pub proof fn lemma_ids_count_up(list: Seq<Seq<char>>)
    requires
        list.no_duplicates(),
        list.len() <= max_fields(),
    ensures
        interned_all(Seq::empty(), list) == list,
        forall|i: int| 0 <= i < list.len() ==> id_of(list, #[trigger] list[i]) == Some(FieldId(i as u16)),
    decreases list.len(),
{
    if list.len() > 0 {
        let front = list.drop_last();
        lemma_ids_count_up(front);
        assert(!front.contains(list.last())) by {
            if front.contains(list.last()) {
                let i = front.index_of(list.last());
                assert(list[i] == list[list.len() - 1]);
            }
        }
        assert(front.push(list.last()) =~= list);
    } else {
        assert(interned_all(Seq::empty(), list) =~= list);
    }
    assert forall|i: int| 0 <= i < list.len() implies id_of(list, #[trigger] list[i]) == Some(
        FieldId(i as u16),
    ) by {
        lemma_id_is_index(list, i);
    }
}

/// Interning a name a second time changes nothing: the map stays as the
/// first time left it, and the name has the identifier it got then.
pub proof fn lemma_intern_again(names: Seq<Seq<char>>, name: Seq<char>)
    requires
        names.no_duplicates(),
    ensures
        has_room(interned(names, name), name),
        interned(interned(names, name), name) == interned(names, name),
        interned(interned(names, name), name).len() == interned(names, name).len(),
        names.contains(name) ==> interned(names, name) == names && id_of(interned(names, name), name)
            == id_of(names, name),
{
    lemma_interned(names, name);
}

/// The names of the fields of an index and their identifiers.
pub struct FieldsMap {
    name_map: StringHashMap<u16>,
    id_map: Vec<String>,
    next_id: FieldId,
}

impl View for FieldsMap {
    type V = Seq<Seq<char>>;

    /// The names in the order of their identifiers.
    closed spec fn view(&self) -> Seq<Seq<char>> {
        Seq::new(self.id_map@.len(), |i: int| self.id_map@[i]@)
    }
}

/// Says that `index` holds for each name of `names`, and for no other text,
/// the place where the name stands.
spec fn indexes(index: Map<Seq<char>, u16>, names: Seq<Seq<char>>) -> bool {
    &&& forall|i: int|
        0 <= i < names.len() ==> index.contains_key(#[trigger] names[i]) && index[names[i]] == i
    &&& forall|k: Seq<char>| #[trigger]
        index.contains_key(k) ==> index[k] < names.len() && names[index[k] as int] == k
}

proof fn lemma_indexes(index: Map<Seq<char>, u16>, names: Seq<Seq<char>>)
    requires
        indexes(index, names),
        names.len() <= max_fields(),
    ensures
        names.no_duplicates(),
        forall|name: Seq<char>|
            id_of(names, name) == if index.contains_key(name) {
                Some(FieldId(index[name]))
            } else {
                None::<FieldId>
            },
{
    assert forall|i: int, j: int| 0 <= i < names.len() && 0 <= j < names.len() && i != j implies names[i]
        != names[j] by {
        assert(index[names[i]] == i && index[names[j]] == j);
    }
    assert forall|name: Seq<char>|
        id_of(names, name) == if index.contains_key(name) {
            Some(FieldId(index[name]))
        } else {
            None::<FieldId>
        } by {
        if index.contains_key(name) {
            assert(names[index[name] as int] == name);
            lemma_id_is_index(names, index[name] as int);
        } else if names.contains(name) {
            let i = names.index_of(name);
            assert(index.contains_key(names[i]));
        }
    }
}

impl FieldsMap {
    /// The invariant of the type: no name is held twice, the lookup by name
    /// agrees with the list of names, and the next identifier is their count.
    pub closed spec fn wf(&self) -> bool {
        &&& self.next_id.0 == self.id_map@.len()
        &&& indexes(self.name_map@, self@)
    }

    /// The identifier of `name`, where it is known.
    pub open spec fn id_spec(&self, name: Seq<char>) -> Option<FieldId> {
        id_of(self@, name)
    }

    /// The name that `id` stands for, where it stands for one.
    pub open spec fn name_spec(&self, id: FieldId) -> Option<Seq<char>> {
        name_of(self@, id)
    }

    /// A well-formed map holds each name once and no more names than there
    /// are identifiers to issue.
    pub proof fn lemma_wf(&self)
        requires
            self.wf(),
        ensures
            self@.no_duplicates(),
            self@.len() <= max_fields(),
    {
        lemma_indexes(self.name_map@, self@);
    }

    /// The map without any name.
    pub fn new() -> (map: FieldsMap)
        ensures
            map.wf(),
            map@ == Seq::<Seq<char>>::empty(),
    {
        let map = FieldsMap { name_map: StringHashMap::new(), id_map: Vec::new(), next_id: FieldId(0) };
        assert(map@ =~= Seq::<Seq<char>>::empty());
        map
    }

    /// The number of names.
    pub fn len(&self) -> (n: usize)
        ensures
            n == self@.len(),
    {
        self.id_map.len()
    }

    /// Interns `name` and returns its identifier. A known name keeps its
    /// identifier and leaves the map as it is. A new name gets the next
    /// identifier, unless none is left: then the map stays as it is and the
    /// call fails with `MaxFieldsLimitExceeded`.
    pub fn insert(&mut self, name: &str) -> (r: SResult<FieldId>)
        requires
            old(self).wf(),
        ensures
            final(self).wf(),
            match r {
                Ok(id) => {
                    &&& has_room(old(self)@, name@)
                    &&& final(self)@ == interned(old(self)@, name@)
                    &&& final(self).id_spec(name@) == Some(id)
                    &&& id == id_when_interned(old(self)@, name@)
                },
                Err(e) => {
                    &&& !has_room(old(self)@, name@)
                    &&& e == Error::MaxFieldsLimitExceeded
                    &&& final(self)@ == old(self)@
                },
            },
    {
        proof {
            self.lemma_wf();
            lemma_indexes(self.name_map@, self@);
            lemma_interned(self@, name@);
        }
        if let Some(id) = self.name_map.get(name) {
            return Ok(FieldId(*id));
        }
        let id = self.next_id;
        self.next_id = match self.next_id.next() {
            Ok(next) => next,
            Err(e) => {
                return Err(e);
            },
        };
        let ghost before = self@;
        let ghost index = self.name_map@;
        self.name_map.insert(name.to_owned(), id.0);
        self.id_map.push(name.to_owned());
        proof {
            assert(self@ =~= before.push(name@));
            assert forall|i: int| 0 <= i < self@.len() implies self.name_map@.contains_key(
                #[trigger] self@[i],
            ) && self.name_map@[self@[i]] == i by {
                if i < before.len() {
                    assert(before[i] == self@[i]);
                }
            }
            assert forall|k: Seq<char>| #[trigger]
                self.name_map@.contains_key(k) implies self.name_map@[k] < self@.len()
                && self@[self.name_map@[k] as int] == k by {
                if k != name@ {
                    assert(index.contains_key(k));
                    assert(before[index[k] as int] == k);
                }
            }
        }
        Ok(id)
    }

    /// Interns every name of `names`, the first one first, and returns their
    /// identifiers in the order of `names`. Where the identifiers do not
    /// suffice for all of them, none is interned: the map stays as it is and
    /// the call fails with `MaxFieldsLimitExceeded`.
    pub fn insert_all(&mut self, names: &Vec<&str>) -> (r: SResult<Vec<FieldId>>)
        requires
            old(self).wf(),
        ensures
            final(self).wf(),
            match r {
                Ok(ids) => {
                    &&& have_room(old(self)@, texts(names@))
                    &&& final(self)@ == interned_all(old(self)@, texts(names@))
                    &&& ids@ == ids_of(final(self)@, texts(names@))
                },
                Err(e) => {
                    &&& !have_room(old(self)@, texts(names@))
                    &&& e == Error::MaxFieldsLimitExceeded
                    &&& final(self)@ == old(self)@
                },
            },
    {
        let ghost before = self@;
        let ghost list = texts(names@);
        let mark = self.id_map.len();
        let mut ids: Vec<FieldId> = Vec::with_capacity(names.len());
        let mut i: usize = 0;
        proof {
            self.lemma_wf();
            assert(list.take(0) =~= Seq::<Seq<char>>::empty());
        }
        while i < names.len()
            invariant
                self.wf(),
                before == old(self)@,
                before.no_duplicates(),
                list == texts(names@),
                mark == before.len(),
                i <= names@.len(),
                self@ == interned_all(before, list.take(i as int)),
                ids@.len() == i,
                forall|j: int|
                    0 <= j < i ==> self@.contains(#[trigger] list[j]) && ids@[j] == FieldId(
                        self@.index_of(list[j]) as u16,
                    ),
            decreases names@.len() - i,
        {
            let ghost middle = self@;
            proof {
                self.lemma_wf();
                lemma_interned(middle, list[i as int]);
                lemma_interned_all_grows(before, list, i + 1);
                assert(list.take(i + 1).drop_last() =~= list.take(i as int));
            }
            match self.insert(names[i]) {
                Ok(id) => {
                    ids.push(id);
                },
                Err(e) => {
                    proof {
                        lemma_interned_all(before, list.take(i as int));
                        assert(list[i as int] == names@[i as int]@);
                        assert(list.take(i + 1).last() == list[i as int]);
                        assert(interned_all(before, list.take(i + 1)) == interned(middle, list[i as int]));
                        assert(self@ == middle);
                    }
                    self.forget_after(mark);
                    return Err(e);
                },
            }
            i += 1;
        }
        proof {
            self.lemma_wf();
            assert(list.take(i as int) =~= list);
            assert(ids@ =~= ids_of(self@, list));
        }
        Ok(ids)
    }

    /// Forgets the names behind the first `len`: undoes what was interned
    /// since the map had `len` names.
    fn forget_after(&mut self, len: usize)
        requires
            old(self).wf(),
            len <= old(self)@.len(),
        ensures
            final(self).wf(),
            final(self)@ == old(self)@.take(len as int),
    {
        proof {
            self.lemma_wf();
            assert(self@.take(self@.len() as int) =~= self@);
        }
        while self.id_map.len() > len
            invariant
                len <= self.id_map@.len() <= old(self)@.len() <= max_fields(),
                old(self)@.no_duplicates(),
                self@ == old(self)@.take(self.id_map@.len() as int),
                indexes(self.name_map@, self@),
            decreases self.id_map@.len(),
        {
            let ghost names = self@;
            let ghost index = self.name_map@;
            let last = self.id_map.len() - 1;
            let name = self.id_map.remove(last);
            self.name_map.remove(name.as_str());
            proof {
                assert(self@ =~= names.drop_last());
                assert(self@ =~= old(self)@.take(last as int));
                assert(names[last as int] == name@);
                assert forall|i: int| 0 <= i < self@.len() implies self.name_map@.contains_key(
                    #[trigger] self@[i],
                ) && self.name_map@[self@[i]] == i by {
                    assert(names[i] == self@[i]);
                    assert(names[i] != names[last as int]);
                }
                assert forall|k: Seq<char>| #[trigger]
                    self.name_map@.contains_key(k) implies self.name_map@[k] < self@.len()
                    && self@[self.name_map@[k] as int] == k by {
                    assert(index.contains_key(k));
                    assert(names[index[k] as int] == k);
                }
            }
        }
        self.next_id = FieldId(len as u16);
    }

    /// The identifier of `name`, or `None` where the name is not known.
    pub fn id(&self, name: &str) -> (id: Option<FieldId>)
        requires
            self.wf(),
        ensures
            id == self.id_spec(name@),
    {
        proof {
            self.lemma_wf();
            lemma_indexes(self.name_map@, self@);
        }
        match self.name_map.get(name) {
            Some(id) => Some(FieldId(*id)),
            None => None,
        }
    }

    /// The name of `id`, or `None` where no name has this identifier.
    pub fn name(&self, id: FieldId) -> (name: Option<&str>)
        ensures
            match name {
                Some(text) => self.name_spec(id) == Some(text@),
                None => self.name_spec(id) is None,
            },
    {
        let at = id.0 as usize;
        if at < self.id_map.len() {
            Some(self.id_map[at].as_str())
        } else {
            None
        }
    }

    /// Every name, in the order of the identifiers.
    pub fn names(&self) -> (names: Vec<&str>)
        ensures
            texts(names@) == self@,
    {
        let mut names: Vec<&str> = Vec::with_capacity(self.id_map.len());
        let mut i: usize = 0;
        while i < self.id_map.len()
            invariant
                i <= self.id_map@.len(),
                names@.len() == i,
                texts(names@) == self@.take(i as int),
            decreases self.id_map@.len() - i,
        {
            let ghost shorter = names@;
            names.push(self.id_map[i].as_str());
            proof {
                assert forall|j: int| 0 <= j < i + 1 implies texts(names@)[j] == self@.take(i + 1)[j] by {
                    if j < i {
                        assert(texts(shorter)[j] == self@.take(i as int)[j]);
                    }
                }
                assert(texts(names@) =~= self@.take(i + 1));
            }
            i += 1;
        }
        assert(self@.take(i as int) =~= self@);
        names
    }
}

impl Clone for FieldsMap {
    fn clone(&self) -> (map: FieldsMap)
        ensures
            self.wf() ==> map.wf() && map@ == self@,
    {
        let mut name_map: StringHashMap<u16> = StringHashMap::new();
        let mut id_map: Vec<String> = Vec::with_capacity(self.id_map.len());
        let mut i: usize = 0;
        while i < self.id_map.len() && i < u16::MAX as usize
            invariant
                i <= self.id_map@.len(),
                i <= u16::MAX,
                id_map@.len() == i,
                forall|j: int| 0 <= j < i ==> (#[trigger] id_map@[j])@ == self@[j],
                forall|j: int|
                    0 <= j < i ==> name_map@.contains_key(#[trigger] self@[j]) && (self@.no_duplicates()
                        ==> name_map@[self@[j]] == j),
                forall|k: Seq<char>| #[trigger]
                    name_map@.contains_key(k) ==> name_map@[k] < i && self@[name_map@[k] as int] == k,
            decreases self.id_map@.len() - i,
        {
            let ghost index = name_map@;
            name_map.insert(self.id_map[i].clone(), i as u16);
            id_map.push(self.id_map[i].clone());
            proof {
                assert(self.id_map@[i as int]@ == self@[i as int]);
                assert(name_map@ == index.insert(self@[i as int], i as u16));
                assert forall|j: int| 0 <= j < i + 1 implies name_map@.contains_key(#[trigger] self@[j])
                    && (self@.no_duplicates() ==> name_map@[self@[j]] == j) by {
                    if j < i {
                        assert(index.contains_key(self@[j]));
                        if self@.no_duplicates() {
                            assert(self@[j] != self@[i as int]);
                        }
                    }
                }
                assert forall|k: Seq<char>| #[trigger] name_map@.contains_key(k) implies name_map@[k] < i
                    + 1 && self@[name_map@[k] as int] == k by {
                    if k != self@[i as int] {
                        assert(index.contains_key(k));
                    }
                }
            }
            i += 1;
        }
        let map = FieldsMap { name_map, id_map, next_id: FieldId(i as u16) };
        proof {
            if self.wf() {
                self.lemma_wf();
                assert(map@ =~= self@);
            }
        }
        map
    }
}

impl Default for FieldsMap {
    fn default() -> (map: FieldsMap)
        ensures
            map.wf(),
            map@ == Seq::<Seq<char>>::empty(),
    {
        FieldsMap::new()
    }
}

} // verus!
