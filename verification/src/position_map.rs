//! The order in which fields are indexed.
//!
//! The model of a [`PositionMap`] is the sequence of its fields: the field at
//! index `p` has position `p`. Positions are therefore dense by construction,
//! and a well-formed map holds no field twice.
use crate::{FieldId, IndexedPos};
use std::collections::BTreeMap;
use vstd::prelude::*;

verus! {

/// The most fields an order can hold: one for each identifier.
pub open spec fn max_positions() -> int {
    u16::MAX + 1
}

/// The position of `id` in `order`, where it has one.
pub open spec fn position_of(order: Seq<FieldId>, id: FieldId) -> Option<IndexedPos> {
    if order.contains(id) {
        Some(IndexedPos(order.index_of(id) as u16))
    } else {
        None
    }
}

/// The field at `pos` in `order`, where there is one.
pub open spec fn field_at(order: Seq<FieldId>, pos: IndexedPos) -> Option<FieldId> {
    if pos.0 < order.len() {
        Some(order[pos.0 as int])
    } else {
        None
    }
}

/// `order` with `id` taken out: the fields behind it move up by one.
pub open spec fn without(order: Seq<FieldId>, id: FieldId) -> Seq<FieldId> {
    if order.contains(id) {
        order.remove(order.index_of(id))
    } else {
        order
    }
}

/// The index at which a move of `id` to `pos` puts it back, once it is taken
/// out: one more than `pos` where `id` stood before `pos`, else `pos`.
pub open spec fn landing(order: Seq<FieldId>, id: FieldId, pos: int) -> int {
    if order.contains(id) && order.index_of(id) < pos {
        pos + 1
    } else {
        pos
    }
}

/// `order` after `id` was placed at `pos`. A field that has a position leaves
/// it first. It then enters at its landing index and pushes what stands there
/// and behind one further, or goes to the end where that index is past it.
pub open spec fn relocated(order: Seq<FieldId>, id: FieldId, pos: int) -> Seq<FieldId> {
    let rest = without(order, id);
    let target = landing(order, id, pos);
    if target < rest.len() {
        rest.insert(target, id)
    } else {
        rest.push(id)
    }
}

/// Fields that differ pairwise are at most as many as there are identifiers.
pub proof fn lemma_order_bounded(order: Seq<FieldId>)
    requires
        order.no_duplicates(),
    ensures
        order.len() <= max_positions(),
{
    let numbers = order.map_values(|f: FieldId| f.0 as int);
    assert(numbers.no_duplicates());
    numbers.unique_seq_to_set();
    let all = vstd::set_lib::set_int_range(0, max_positions());
    vstd::set_lib::lemma_int_range(0, max_positions());
    assert forall|n: int| numbers.to_set().contains(n) implies all.contains(n) by {
        let i = choose|i: int| 0 <= i < numbers.len() && numbers[i] == n;
        assert(numbers[i] == order[i].0);
    }
    vstd::set_lib::lemma_len_subset(numbers.to_set(), all);
}

/// An order that lacks some field has room for one more.
pub proof fn lemma_order_has_room(order: Seq<FieldId>, id: FieldId)
    requires
        order.no_duplicates(),
        !order.contains(id),
    ensures
        order.len() < max_positions(),
{
    let longer = order.push(id);
    assert(longer.no_duplicates());
    lemma_order_bounded(longer);
}

/// The position of a field is the one index at which it stands.
pub proof fn lemma_position_is_index(order: Seq<FieldId>, i: int)
    requires
        order.no_duplicates(),
        0 <= i < order.len(),
    ensures
        order.contains(order[i]),
        order.index_of(order[i]) == i,
        position_of(order, order[i]) == Some(IndexedPos(i as u16)),
        i <= u16::MAX,
{
    lemma_order_bounded(order);
}

/// Taking a field out leaves the others, pairwise different as before.
pub proof fn lemma_without(order: Seq<FieldId>, id: FieldId)
    requires
        order.no_duplicates(),
    ensures
        without(order, id).no_duplicates(),
        !without(order, id).contains(id),
        forall|f: FieldId| f != id ==> (without(order, id).contains(f) <==> order.contains(f)),
        without(order, id).len() == if order.contains(id) {
            order.len() - 1
        } else {
            order.len() as int
        },
{
    let rest = without(order, id);
    if order.contains(id) {
        let at = order.index_of(id);
        assert forall|f: FieldId| f != id && order.contains(f) implies rest.contains(f) by {
            let i = order.index_of(f);
            if i < at {
                assert(rest[i] == f);
            } else {
                assert(rest[i - 1] == f);
            }
        }
        assert forall|f: FieldId| rest.contains(f) implies order.contains(f) && f != id by {
            let i = rest.index_of(f);
            if i < at {
                assert(order[i] == f);
            } else {
                assert(order[i + 1] == f);
            }
        }
    }
}

/// Placing a field keeps the fields pairwise different, adds the field where
/// it was missing and loses none.
pub proof fn lemma_relocated(order: Seq<FieldId>, id: FieldId, pos: int)
    requires
        order.no_duplicates(),
        0 <= pos,
    ensures
        relocated(order, id, pos).no_duplicates(),
        relocated(order, id, pos).contains(id),
        forall|f: FieldId| relocated(order, id, pos).contains(f) <==> (f == id || order.contains(f)),
        relocated(order, id, pos).len() == if order.contains(id) {
            order.len() as int
        } else {
            order.len() as int + 1
        },
{
    lemma_without(order, id);
    let rest = without(order, id);
    let target = landing(order, id, pos);
    let at = if target < rest.len() {
        target
    } else {
        rest.len() as int
    };
    let placed = relocated(order, id, pos);
    assert(placed =~= rest.insert(at, id));
    assert(placed[at] == id);
    assert forall|f: FieldId| rest.contains(f) implies placed.contains(f) by {
        let i = rest.index_of(f);
        if i < at {
            assert(placed[i] == f);
        } else {
            assert(placed[i + 1] == f);
        }
    }
    assert forall|f: FieldId| placed.contains(f) implies f == id || rest.contains(f) by {
        let i = placed.index_of(f);
        if i < at {
            assert(rest[i] == f);
        } else if i > at {
            assert(rest[i - 1] == f);
        }
    }
    assert forall|i: int, j: int| 0 <= i < placed.len() && 0 <= j < placed.len() && i != j implies placed[i]
        != placed[j] by {
        let a = if i < at { i } else { i - 1 };
        let b = if j < at { j } else { j - 1 };
        if i != at && j != at {
            assert(placed[i] == rest[a] && placed[j] == rest[b]);
        } else if i == at {
            assert(placed[j] == rest[b]);
        } else {
            assert(placed[i] == rest[a]);
        }
    }
}

/// The positions that are in use: those that some field has.
pub open spec fn occupied(order: Seq<FieldId>) -> Set<IndexedPos> {
    Set::new(|pos: IndexedPos| exists|id: FieldId| #[trigger] position_of(order, id) == Some(pos))
}

/// Positions are dense: the positions in use are exactly those below the
/// number of fields, which is the number of the fields that have a position,
/// and each of them belongs to one field.
pub proof fn lemma_positions_dense(order: Seq<FieldId>)
    requires
        order.no_duplicates(),
    ensures
        occupied(order) == Set::new(|pos: IndexedPos| pos.0 < order.len()),
        order.len() == order.to_set().len(),
        forall|a: FieldId, b: FieldId|
            position_of(order, a) is Some && position_of(order, a) == position_of(order, b) ==> a == b,
{
    lemma_order_bounded(order);
    order.unique_seq_to_set();
    let below = Set::new(|pos: IndexedPos| pos.0 < order.len());
    assert forall|pos: IndexedPos| occupied(order).contains(pos) implies below.contains(pos) by {
        let id = choose|id: FieldId| #[trigger] position_of(order, id) == Some(pos);
        assert(order.contains(id));
    }
    assert forall|pos: IndexedPos| below.contains(pos) implies occupied(order).contains(pos) by {
        lemma_position_is_index(order, pos.0 as int);
        assert(position_of(order, order[pos.0 as int]) == Some(pos));
    }
    assert(occupied(order) =~= below);
}

/// The two lookups are inverse to each other: a field has a position exactly
/// if it is the field at that position.
pub proof fn lemma_lookups_inverse(order: Seq<FieldId>, id: FieldId, pos: IndexedPos)
    requires
        order.no_duplicates(),
    ensures
        position_of(order, id) == Some(pos) <==> field_at(order, pos) == Some(id),
{
    lemma_order_bounded(order);
    if field_at(order, pos) == Some(id) {
        lemma_position_is_index(order, pos.0 as int);
    }
}

/// A field whose place lies at or past the end of the others goes to the end.
pub proof fn lemma_relocated_to_end(order: Seq<FieldId>, id: FieldId, pos: int)
    requires
        pos >= without(order, id).len(),
    ensures
        relocated(order, id, pos) == without(order, id).push(id),
{
}

/// `order` after each field of `ids` was placed, the first one first, at the
/// position that is its index in `ids`.
pub open spec fn repositioned(order: Seq<FieldId>, ids: Seq<FieldId>) -> Seq<FieldId>
    decreases ids.len(),
{
    if ids.len() == 0 {
        order
    } else {
        relocated(repositioned(order, ids.drop_last()), ids.last(), ids.len() - 1)
    }
}

/// The test that a field is none of `ids`.
pub open spec fn not_in(ids: Seq<FieldId>) -> spec_fn(FieldId) -> bool {
    |f: FieldId| !ids.contains(f)
}

/// The test that a field is another one than `id`.
pub open spec fn other_than(id: FieldId) -> spec_fn(FieldId) -> bool {
    |f: FieldId| f != id
}

/// Placing a list of fields keeps the fields pairwise different and loses none.
pub proof fn lemma_repositioned(order: Seq<FieldId>, ids: Seq<FieldId>)
    requires
        order.no_duplicates(),
    ensures
        repositioned(order, ids).no_duplicates(),
        forall|f: FieldId| repositioned(order, ids).contains(f) <==> (ids.contains(f) || order.contains(f)),
    decreases ids.len(),
{
    if ids.len() > 0 {
        let front = ids.drop_last();
        let middle = repositioned(order, front);
        let after = repositioned(order, ids);
        lemma_repositioned(order, front);
        lemma_relocated(middle, ids.last(), ids.len() - 1);
        assert forall|f: FieldId| ids.contains(f) implies after.contains(f) by {
            let i = ids.index_of(f);
            if i < front.len() {
                assert(front[i] == f);
                assert(front.contains(f));
                assert(middle.contains(f));
            }
        }
        assert forall|f: FieldId| after.contains(f) implies ids.contains(f) || order.contains(f) by {
            if f == ids.last() {
                assert(ids[ids.len() - 1] == f);
            } else if front.contains(f) {
                let i = front.index_of(f);
                assert(ids[i] == f);
            }
        }
    }
}

/// Keeping the fields that pass a test leaves fields of the sequence, in
/// their order, and each at most as often as before.
pub proof fn lemma_filter_keeps(order: Seq<FieldId>, test: spec_fn(FieldId) -> bool)
    ensures
        forall|f: FieldId| #[trigger]
            order.filter(test).contains(f) <==> (order.contains(f) && test(f)),
        order.no_duplicates() ==> order.filter(test).no_duplicates(),
    decreases order.len(),
{
    let kept = order.filter(test);
    if order.len() == 0 {
        assert(kept =~= order) by {
            reveal(Seq::filter);
        }
    } else {
        let front = order.drop_last();
        let last = order.last();
        lemma_filter_keeps(front, test);
        assert(order =~= front.push(last));
        front.lemma_filter_push(last, test);
        let front_kept = front.filter(test);
        assert forall|f: FieldId| kept.contains(f) implies order.contains(f) && test(f) by {
            let i = kept.index_of(f);
            if i < front_kept.len() {
                assert(front_kept[i] == f);
                assert(front_kept.contains(f));
                let j = front.index_of(f);
                assert(order[j] == f);
            } else {
                assert(order[order.len() - 1] == f);
            }
        }
        assert forall|f: FieldId| order.contains(f) && test(f) implies kept.contains(f) by {
            let j = order.index_of(f);
            if j < front.len() {
                assert(front[j] == f);
                assert(front_kept.contains(f));
                let i = front_kept.index_of(f);
                assert(kept[i] == f);
            } else {
                assert(kept[kept.len() - 1] == f);
            }
        }
        if order.no_duplicates() {
            assert(front.no_duplicates());
            assert(!front.contains(last)) by {
                if front.contains(last) {
                    let j = front.index_of(last);
                    assert(order[j] == order[order.len() - 1]);
                }
            }
            assert(!front_kept.contains(last));
            if test(last) {
                assert(kept == front_kept.push(last));
                assert forall|i: int, j: int|
                    0 <= i < kept.len() && 0 <= j < kept.len() && i != j implies kept[i] != kept[j] by {
                    if i < front_kept.len() {
                        assert(front_kept.contains(front_kept[i]));
                    }
                    if j < front_kept.len() {
                        assert(front_kept.contains(front_kept[j]));
                    }
                }
            }
            assert(kept.no_duplicates());
        }
    }
}

/// A test that every field of a sequence passes keeps the sequence.
pub proof fn lemma_filter_all(order: Seq<FieldId>, test: spec_fn(FieldId) -> bool)
    requires
        forall|i: int| 0 <= i < order.len() ==> test(#[trigger] order[i]),
    ensures
        order.filter(test) == order,
    decreases order.len(),
{
    if order.len() == 0 {
        reveal(Seq::filter);
    } else {
        let front = order.drop_last();
        let last = order.last();
        assert forall|i: int| 0 <= i < front.len() implies test(#[trigger] front[i]) by {
            assert(front[i] == order[i]);
        }
        lemma_filter_all(front, test);
        assert(order =~= front.push(last));
        front.lemma_filter_push(last, test);
    }
}

/// To take a field out of an order is to keep the others.
pub proof fn lemma_without_keeps_others(order: Seq<FieldId>, id: FieldId)
    requires
        order.no_duplicates(),
    ensures
        without(order, id) == order.filter(other_than(id)),
    decreases order.len(),
{
    let test = other_than(id);
    if order.len() == 0 {
        reveal(Seq::filter);
    } else {
        let front = order.drop_last();
        let last = order.last();
        lemma_without_keeps_others(front, id);
        assert(order =~= front.push(last));
        front.lemma_filter_push(last, test);
        if last == id {
            assert(!front.contains(id)) by {
                if front.contains(id) {
                    let j = front.index_of(id);
                    assert(order[j] == order[order.len() - 1]);
                }
            }
            assert(order[order.len() - 1] == id);
            assert(order.index_of(id) == order.len() - 1);
            assert(without(order, id) =~= front);
        } else if front.contains(id) {
            let j = front.index_of(id);
            assert(order[j] == id);
            assert(order.index_of(id) == j);
            assert(without(order, id) =~= front.remove(j).push(last));
        } else {
            assert(!order.contains(id)) by {
                if order.contains(id) {
                    let j = order.index_of(id);
                    assert(front[j] == id);
                }
            }
        }
    }
}

/// To keep what passes one test and of that what passes another is to keep
/// what passes both.
pub proof fn lemma_filter_twice(
    order: Seq<FieldId>,
    first: spec_fn(FieldId) -> bool,
    second: spec_fn(FieldId) -> bool,
    both: spec_fn(FieldId) -> bool,
)
    requires
        forall|f: FieldId| #[trigger] both(f) == (first(f) && second(f)),
    ensures
        order.filter(first).filter(second) == order.filter(both),
    decreases order.len(),
{
    if order.len() == 0 {
        reveal(Seq::filter);
        assert(order.filter(first) =~= order);
    } else {
        let front = order.drop_last();
        let last = order.last();
        lemma_filter_twice(front, first, second, both);
        assert(order =~= front.push(last));
        front.lemma_filter_push(last, first);
        front.lemma_filter_push(last, both);
        front.filter(first).lemma_filter_push(last, second);
    }
}

/// A field that is placed right behind a front which lacks it comes to stand
/// there, and leaves its old place where it had one further back.
proof fn lemma_placed_behind(front: Seq<FieldId>, tail: Seq<FieldId>, id: FieldId)
    requires
        (front + tail).no_duplicates(),
        !front.contains(id),
    ensures
        relocated(front + tail, id, front.len() as int) == front.push(id) + without(tail, id),
{
    let middle = front + tail;
    let k = front.len() as int;
    if tail.contains(id) {
        let j = tail.index_of(id);
        assert(middle[k + j] == id);
        assert(middle.contains(id));
        assert(middle.index_of(id) == k + j);
        let rest = middle.remove(k + j);
        assert(without(middle, id) == rest);
        assert(without(tail, id) == tail.remove(j));
        assert(rest =~= front + tail.remove(j));
        assert(landing(middle, id, k) == k);
        if k < rest.len() {
            assert(rest.insert(k, id) =~= front.push(id) + tail.remove(j));
        } else {
            assert(rest.push(id) =~= front.push(id) + tail.remove(j));
        }
    } else {
        assert(!middle.contains(id)) by {
            if middle.contains(id) {
                let i = middle.index_of(id);
                if i < k {
                    assert(front[i] == id);
                } else {
                    assert(tail[i - k] == id);
                }
            }
        }
        assert(without(middle, id) == middle);
        assert(landing(middle, id, k) == k);
        if k < middle.len() {
            assert(middle.insert(k, id) =~= front.push(id) + tail);
        } else {
            assert(middle.push(id) =~= front.push(id) + tail);
        }
    }
}

/// The fields that are none of `front` nor `id` are those that are none of
/// `front`, without `id`.
proof fn lemma_not_in_one_more(order: Seq<FieldId>, front: Seq<FieldId>, id: FieldId)
    requires
        order.no_duplicates(),
    ensures
        order.filter(not_in(front.push(id))) == without(order.filter(not_in(front)), id),
{
    let ids = front.push(id);
    let tail = order.filter(not_in(front));
    lemma_filter_keeps(order, not_in(front));
    lemma_without_keeps_others(tail, id);
    assert forall|f: FieldId| #[trigger]
        not_in(ids)(f) == (not_in(front)(f) && other_than(id)(f)) by {
        if ids.contains(f) {
            let j = ids.index_of(f);
            if j < front.len() {
                assert(front[j] == f);
            }
        }
        if front.contains(f) {
            let j = front.index_of(f);
            assert(ids[j] == f);
        }
        if f == id {
            assert(ids[front.len() as int] == f);
        }
    }
    lemma_filter_twice(order, not_in(front), other_than(id), not_in(ids));
}

/// Where the fields of `ids` differ pairwise, placing them puts them in
/// front, in the order of `ids`. The fields that `ids` does not name follow
/// in the order that they had among themselves.
pub proof fn lemma_repositioned_distinct(order: Seq<FieldId>, ids: Seq<FieldId>)
    requires
        order.no_duplicates(),
        ids.no_duplicates(),
    ensures
        repositioned(order, ids) == ids + order.filter(not_in(ids)),
    decreases ids.len(),
{
    if ids.len() == 0 {
        lemma_filter_all(order, not_in(ids));
        assert(ids + order =~= order);
    } else {
        let front = ids.drop_last();
        let id = ids.last();
        let tail = order.filter(not_in(front));
        lemma_repositioned_distinct(order, front);
        lemma_repositioned(order, front);
        assert(front.push(id) =~= ids);
        assert(!front.contains(id)) by {
            if front.contains(id) {
                let j = front.index_of(id);
                assert(ids[j] == ids[ids.len() - 1]);
            }
        }
        lemma_placed_behind(front, tail, id);
        lemma_not_in_one_more(order, front, id);
    }
}

/// An ordered set of fields with the position of each.
///
/// Beside the order itself the map keeps, for every field in it, the position
/// the field has, so that both directions are looked up without a search.
#[derive(Debug)]
pub struct PositionMap {
    pos_to_field: Vec<FieldId>,
    field_to_pos: BTreeMap<u16, u16>,
}

impl View for PositionMap {
    type V = Seq<FieldId>;

    /// The fields in order: the field at index `p` has position `p`.
    closed spec fn view(&self) -> Seq<FieldId> {
        self.pos_to_field@
    }
}

/// Says that `index` holds for each field of `order`, and for no other, the
/// place where the field stands.
spec fn indexes(index: Map<u16, u16>, order: Seq<FieldId>) -> bool {
    &&& forall|i: int|
        0 <= i < order.len() ==> index.contains_key(#[trigger] order[i].0) && index[order[i].0] == i
    &&& forall|k: u16| #[trigger]
        index.contains_key(k) ==> index[k] < order.len() && order[index[k] as int] == FieldId(k)
}

proof fn lemma_indexes(index: Map<u16, u16>, order: Seq<FieldId>)
    requires
        indexes(index, order),
    ensures
        order.no_duplicates(),
        forall|id: FieldId|
            position_of(order, id) == if index.contains_key(id.0) {
                Some(IndexedPos(index[id.0]))
            } else {
                None::<IndexedPos>
            },
{
    assert forall|i: int, j: int| 0 <= i < order.len() && 0 <= j < order.len() && i != j implies order[i]
        != order[j] by {
        assert(index[order[i].0] == i && index[order[j].0] == j);
    }
    assert forall|id: FieldId|
        position_of(order, id) == if index.contains_key(id.0) {
            Some(IndexedPos(index[id.0]))
        } else {
            None::<IndexedPos>
        } by {
        if index.contains_key(id.0) {
            assert(order[index[id.0] as int] == id);
            lemma_position_is_index(order, index[id.0] as int);
        } else if order.contains(id) {
            let i = order.index_of(id);
            assert(index.contains_key(order[i].0));
        }
    }
}

impl PositionMap {
    /// The invariant of the type: no field stands at two positions, and the
    /// reverse lookup agrees with the order.
    pub closed spec fn wf(&self) -> bool {
        indexes(self.field_to_pos@, self.pos_to_field@)
    }

    /// The position of `id`, where it has one.
    pub open spec fn field_to_pos_spec(&self, id: FieldId) -> Option<IndexedPos> {
        position_of(self@, id)
    }

    /// The field at `pos`, where there is one.
    pub open spec fn pos_to_field_spec(&self, pos: IndexedPos) -> Option<FieldId> {
        field_at(self@, pos)
    }

    /// A well-formed map holds each field once, so it holds at most as many
    /// fields as there are identifiers.
    pub proof fn lemma_wf(&self)
        requires
            self.wf(),
        ensures
            self@.no_duplicates(),
            self@.len() <= max_positions(),
    {
        lemma_indexes(self.field_to_pos@, self.pos_to_field@);
        lemma_order_bounded(self@);
    }

    /// Positions are dense: a map of `n` fields has a field at each position
    /// below `n` and at no other, and gives each field another one.
    pub proof fn lemma_dense(&self)
        requires
            self.wf(),
        ensures
            occupied(self@) == Set::new(|pos: IndexedPos| pos.0 < self@.len()),
            forall|pos: IndexedPos| self.pos_to_field_spec(pos) is Some <==> pos.0 < self@.len(),
            forall|a: FieldId, b: FieldId|
                self.field_to_pos_spec(a) is Some && self.field_to_pos_spec(a) == self.field_to_pos_spec(
                    b,
                ) ==> a == b,
    {
        self.lemma_wf();
        lemma_positions_dense(self@);
    }

    /// The two lookups are inverse to each other: `id` has the position
    /// `pos` exactly if it is the field at `pos`.
    pub proof fn lemma_inverse(&self, id: FieldId, pos: IndexedPos)
        requires
            self.wf(),
        ensures
            self.field_to_pos_spec(id) == Some(pos) <==> self.pos_to_field_spec(pos) == Some(id),
    {
        self.lemma_wf();
        lemma_lookups_inverse(self@, id, pos);
    }

    /// The map without any field.
    pub fn new() -> (map: PositionMap)
        ensures
            map.wf(),
            map@ == Seq::<FieldId>::empty(),
    {
        PositionMap { pos_to_field: Vec::new(), field_to_pos: BTreeMap::new() }
    }

    /// The number of fields that have a position.
    pub fn len(&self) -> (n: usize)
        ensures
            n == self@.len(),
    {
        self.pos_to_field.len()
    }

    /// The position of `id`, or `None` where it has none.
    pub fn field_to_pos(&self, id: FieldId) -> (pos: Option<IndexedPos>)
        requires
            self.wf(),
        ensures
            pos == self.field_to_pos_spec(id),
    {
        proof {
            lemma_indexes(self.field_to_pos@, self.pos_to_field@);
        }
        match self.field_to_pos.get(&id.0) {
            Some(pos) => Some(IndexedPos(*pos)),
            None => None,
        }
    }

    /// The field at `pos`, or `None` where `pos` is past the last field.
    pub fn pos_to_field(&self, pos: IndexedPos) -> (id: Option<FieldId>)
        ensures
            id == self.pos_to_field_spec(pos),
    {
        let pos = pos.0 as usize;
        if pos < self.pos_to_field.len() {
            Some(self.pos_to_field[pos])
        } else {
            None
        }
    }

    /// Places `id` at `pos`: a move for a field that has a position, an entry
    /// for one that has none. See [`relocated`] for where the field and the
    /// others stand afterwards.
    ///
    /// A field that has no position may enter anywhere up to one past the end.
    /// To name a place further out for it is an error of the caller.
    pub fn insert(&mut self, id: FieldId, pos: IndexedPos)
        requires
            old(self).wf(),
            old(self)@.contains(id) || pos.0 <= old(self)@.len() + 1,
        ensures
            final(self).wf(),
            final(self)@ == relocated(old(self)@, id, pos.0 as int),
    {
        proof {
            self.lemma_wf();
            lemma_indexes(self.field_to_pos@, self.pos_to_field@);
            lemma_without(self@, id);
            lemma_relocated(self@, id, pos.0 as int);
        }
        let ghost before = self@;
        let mut upos = pos.0 as usize;
        if let Some(old_pos) = self.field_to_pos.get(&id.0) {
            let uold_pos = *old_pos as usize;
            assert(uold_pos == before.index_of(id));
            self.pos_to_field.remove(uold_pos);
            if uold_pos < upos {
                upos += 1;
            }
        }
        assert(self.pos_to_field@ == without(before, id));
        assert(upos == landing(before, id, pos.0 as int));

        if upos < self.pos_to_field.len() {
            self.pos_to_field.insert(upos, id);
        } else {
            self.pos_to_field.push(id);
        }
        assert(self.pos_to_field@ == relocated(before, id, pos.0 as int));

        self.reindex();
    }

    /// Writes the reverse lookup anew from the order.
    fn reindex(&mut self)
        requires
            old(self).pos_to_field@.no_duplicates(),
        ensures
            final(self).wf(),
            final(self).pos_to_field@ == old(self).pos_to_field@,
    {
        proof {
            lemma_order_bounded(self.pos_to_field@);
        }
        self.field_to_pos.clear();
        let mut p: usize = 0;
        while p < self.pos_to_field.len()
            invariant
                self.pos_to_field@ == old(self).pos_to_field@,
                self.pos_to_field@.no_duplicates(),
                p <= self.pos_to_field@.len() <= max_positions(),
                indexes(self.field_to_pos@, self.pos_to_field@.take(p as int)),
            decreases self.pos_to_field@.len() - p,
        {
            let f = self.pos_to_field[p];
            let ghost index = self.field_to_pos@;
            let ghost order = self.pos_to_field@;
            self.field_to_pos.insert(f.0, p as u16);
            proof {
                let longer = order.take(p + 1);
                assert(longer.drop_last() == order.take(p as int));
                assert(!order.take(p as int).contains(f)) by {
                    if order.take(p as int).contains(f) {
                        let i = order.take(p as int).index_of(f);
                        assert(order[i] == order[p as int]);
                    }
                }
                assert(!index.contains_key(f.0));
                assert forall|i: int| 0 <= i < longer.len() implies self.field_to_pos@.contains_key(
                    #[trigger] longer[i].0,
                ) && self.field_to_pos@[longer[i].0] == i by {
                    if i < p {
                        assert(order.take(p as int)[i] == longer[i]);
                    }
                }
                assert forall|k: u16| #[trigger]
                    self.field_to_pos@.contains_key(k) implies self.field_to_pos@[k] < longer.len()
                    && longer[self.field_to_pos@[k] as int] == FieldId(k) by {
                    if k != f.0 {
                        assert(index.contains_key(k));
                        assert(order.take(p as int)[index[k] as int] == FieldId(k));
                    }
                }
            }
            p += 1;
        }
        assert(self.pos_to_field@.take(p as int) == self.pos_to_field@);
    }

    /// Every field with its position, in ascending order of position.
    pub fn field_pos(&self) -> (pairs: Vec<(FieldId, IndexedPos)>)
        requires
            self.wf(),
        ensures
            pairs@.len() == self@.len(),
            forall|i: int|
                0 <= i < pairs@.len() ==> #[trigger] pairs@[i] == (self@[i], IndexedPos(i as u16)),
            forall|i: int|
                0 <= i < pairs@.len() ==> self.field_to_pos_spec((#[trigger] pairs@[i]).0) == Some(
                    pairs@[i].1,
                ),
    {
        proof {
            self.lemma_wf();
        }
        let mut pairs: Vec<(FieldId, IndexedPos)> = Vec::with_capacity(self.pos_to_field.len());
        let mut p: usize = 0;
        while p < self.pos_to_field.len()
            invariant
                p <= self.pos_to_field@.len() <= max_positions(),
                self@ == self.pos_to_field@,
                pairs@.len() == p,
                forall|i: int| 0 <= i < p ==> #[trigger] pairs@[i] == (self@[i], IndexedPos(i as u16)),
            decreases self.pos_to_field@.len() - p,
        {
            pairs.push((self.pos_to_field[p], IndexedPos(p as u16)));
            p += 1;
        }
        proof {
            assert forall|i: int| 0 <= i < pairs@.len() implies self.field_to_pos_spec(
                (#[trigger] pairs@[i]).0,
            ) == Some(pairs@[i].1) by {
                lemma_position_is_index(self@, i);
            }
        }
        pairs
    }

    /// Pushes `id` in last position. The field must not have a position yet.
    pub fn push(&mut self, id: FieldId)
        requires
            old(self).wf(),
            !old(self)@.contains(id),
        ensures
            final(self).wf(),
            final(self)@ == old(self)@.push(id),
    {
        proof {
            self.lemma_wf();
            lemma_order_has_room(self@, id);
        }
        let pos = self.len();
        self.pos_to_field.push(id);
        self.field_to_pos.insert(id.0, pos as u16);
    }
}

impl Clone for PositionMap {
    fn clone(&self) -> (map: PositionMap)
        ensures
            map@ == self@,
            self.wf() ==> map.wf(),
    {
        let pos_to_field = self.pos_to_field.clone();
        assert(pos_to_field@ =~= self.pos_to_field@);
        PositionMap { pos_to_field, field_to_pos: self.field_to_pos.clone() }
    }
}

impl Default for PositionMap {
    fn default() -> (map: PositionMap)
        ensures
            map.wf(),
            map@ == Seq::<FieldId>::empty(),
    {
        PositionMap::new()
    }
}

} // verus!
