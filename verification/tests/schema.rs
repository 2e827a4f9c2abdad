use meilisearch_schema::{Error, FieldId, IndexedPos, Schema, Snapshot};

/// The names `"0"`, `"1"`, ... of as many fields as a schema can know.
fn many_names() -> Vec<String> {
    (0..u16::MAX).map(|number| number.to_string()).collect()
}

/// A schema that knows as many fields as it can.
fn full_schema() -> Schema {
    let mut schema = Schema::new();
    for (number, name) in many_names().iter().enumerate() {
        assert_eq!(schema.insert(name), Ok(FieldId(number as u16)));
    }
    schema
}

#[test]
fn test_with_primary_key() {
    let schema = Schema::with_primary_key("test");
    assert_eq!(
        schema.snapshot(),
        Snapshot {
            names: vec!["test".to_string()],
            primary_key: Some(FieldId(0)),
            ranked: vec![],
            displayed: None,
            searchable: None,
            positions: vec![],
        }
    );
    assert_eq!(schema.id("test"), Some(FieldId(0)));
    assert_eq!(schema.name(FieldId(0)), Some("test"));
    assert_eq!(schema.name(FieldId(1)), None);
    assert!(schema.ranked().is_empty());
    assert!(schema.is_displayed_all());
    assert!(schema.is_searchable_all());
    assert_eq!(schema.indexed_pos_to_field_id(IndexedPos(0)), None);
    assert_eq!(
        format!("{:?}", schema.snapshot()),
        "Snapshot { names: [\"test\"], primary_key: Some(FieldId(0)), ranked: [], displayed: None, searchable: None, positions: [] }"
    );
}

#[test]
fn primary_key() {
    let schema = Schema::with_primary_key("test");
    assert_eq!(schema.primary_key(), Some("test"));
}

#[test]
fn insert_last() {
    let mut schema = Schema::default();
    assert_eq!(schema.insert_position_last(1.into()), IndexedPos(0));
    assert_eq!(schema.insert_position_last(2.into()), IndexedPos(1));
}

#[test]
fn test_insert_with_position_base() {
    let mut schema = Schema::default();
    let (id, position) = schema.insert_with_position("foo").unwrap();
    assert!(schema.is_searchable_all());
    assert!(schema.is_displayed_all());
    assert_eq!(id, 0.into());
    assert_eq!(position, 0.into());
    let (id, position) = schema.insert_with_position("bar").unwrap();
    assert_eq!(id, 1.into());
    assert_eq!(position, 1.into());
}

#[test]
fn test_insert_with_position_primary_key() {
    let mut schema = Schema::with_primary_key("test");
    let (id, position) = schema.insert_with_position("foo").unwrap();
    assert!(schema.is_searchable_all());
    assert!(schema.is_displayed_all());
    assert_eq!(id, 1.into());
    assert_eq!(position, 0.into());
    let (id, position) = schema.insert_with_position("test").unwrap();
    assert_eq!(id, 0.into());
    assert_eq!(position, 1.into());
}

#[test]
fn test_insert_with_position_non_all_searchable_attributes() {}

#[test]
fn schema_test_insert() {
    let mut schema = Schema::default();
    let field_id = schema.insert("foo").unwrap();
    assert!(schema.name(field_id).is_some());
    assert!(schema.is_searchable_all());
    assert!(schema.is_displayed_all());
}

#[test]
fn test_update_searchable() {
    let mut schema = Schema::default();

    schema.update_searchable(vec!["foo", "bar"]).unwrap();
    assert_eq!(schema.snapshot().positions, vec![FieldId(0), FieldId(1)]);
    assert_eq!(schema.get_position(FieldId(0)), Some(IndexedPos(0)));
    assert_eq!(schema.get_position(FieldId(1)), Some(IndexedPos(1)));
    assert_eq!(schema.get_position(FieldId(2)), None);
    assert_eq!(
        format!("{:?}", schema.snapshot().searchable),
        "Some([FieldId(0), FieldId(1)])"
    );
    schema.update_searchable(vec!["bar"]).unwrap();
    assert_eq!(format!("{:?}", schema.snapshot().searchable), "Some([FieldId(1)])");
    assert_eq!(schema.snapshot().positions, vec![FieldId(1), FieldId(0)]);
    assert_eq!(schema.get_position(FieldId(0)), Some(IndexedPos(1)));
    assert_eq!(schema.get_position(FieldId(1)), Some(IndexedPos(0)));
    assert_eq!(schema.get_position(FieldId(2)), None);
}

#[test]
fn empty_schema() {
    let schema = Schema::new();
    assert_eq!(
        schema.snapshot(),
        Snapshot {
            names: vec![],
            primary_key: None,
            ranked: vec![],
            displayed: None,
            searchable: None,
            positions: vec![],
        }
    );
    assert_eq!(schema.primary_key(), None);
    assert_eq!(schema.names(), Vec::<&str>::new());
    assert_eq!(schema.displayed_names(), Vec::<&str>::new());
    assert_eq!(schema.searchable_attributes_str(), Vec::<&str>::new());
}

#[test]
fn update_searchable_lists_what_was_given() {
    let mut schema = Schema::new();
    schema.update_searchable(vec!["b", "a"]).unwrap();
    assert_eq!(schema.searchable_attributes_str(), vec!["b", "a"]);
    assert!(!schema.is_searchable_all());
    schema.update_searchable(vec!["a"]).unwrap();
    assert_eq!(schema.searchable_attributes_str(), vec!["a"]);
    assert!(!schema.is_searchable_all());
    assert_eq!(schema.searchable_attributes(), vec![FieldId(1)]);
}

#[test]
fn all_fields_as_indexed_tracks_new_fields() {
    let mut schema = Schema::new();
    schema.update_searchable(vec!["a"]).unwrap();
    schema.insert("hidden").unwrap();
    assert_eq!(schema.searchable_attributes_str(), vec!["a"]);
    schema.set_all_fields_as_indexed();
    assert!(schema.is_searchable_all());
    schema.insert("brand new").unwrap();
    assert!(schema.searchable_attributes_str().contains(&"brand new"));
    schema.insert_with_position("with position").unwrap();
    assert!(schema.searchable_attributes_str().contains(&"with position"));
    // fields with a position first, in their order, then the others
    assert_eq!(
        schema.searchable_attributes_str(),
        vec!["a", "with position", "hidden", "brand new"]
    );
}

#[test]
fn positions_follow_the_searchable_list() {
    let mut schema = Schema::new();
    assert_eq!(schema.insert_with_position("title"), Ok((FieldId(0), IndexedPos(0))));
    assert_eq!(schema.insert_with_position("body"), Ok((FieldId(1), IndexedPos(1))));
    schema.update_searchable(vec!["body"]).unwrap();
    let title = schema.id("title").unwrap();
    let body = schema.id("body").unwrap();
    assert_eq!(schema.get_position(body), Some(IndexedPos(0)));
    assert_eq!(schema.get_position(title), Some(IndexedPos(1)));
}

#[test]
fn set_primary_key_once() {
    let mut schema = Schema::with_primary_key("id");
    assert_eq!(schema.primary_key(), Some("id"));
    let before = schema.snapshot();
    assert_eq!(schema.set_primary_key("other"), Err(Error::PrimaryKeyAlreadyPresent));
    assert_eq!(schema.primary_key(), Some("id"));
    assert_eq!(schema.id("other"), None);
    assert_eq!(schema.snapshot(), before);
}

#[test]
fn set_primary_key_on_a_schema_without_one() {
    let mut schema = Schema::new();
    schema.insert("a").unwrap();
    assert_eq!(schema.set_primary_key("key"), Ok(FieldId(1)));
    assert_eq!(schema.primary_key(), Some("key"));
    // the key has no position and no setting has changed
    assert_eq!(schema.get_position(FieldId(1)), None);
    assert!(schema.is_displayed_all());
    assert!(schema.is_searchable_all());
    assert!(!schema.is_ranked(FieldId(1)));
    assert_eq!(schema.set_primary_key("a"), Err(Error::PrimaryKeyAlreadyPresent));
}

#[test]
fn set_primary_key_to_a_known_name() {
    let mut schema = Schema::new();
    schema.insert("a").unwrap();
    schema.insert("b").unwrap();
    assert_eq!(schema.set_primary_key("a"), Ok(FieldId(0)));
    assert_eq!(schema.names(), vec!["a", "b"]);
}

#[test]
fn round_trip_through_a_snapshot() {
    let mut schema = Schema::with_primary_key("id");
    schema.insert_with_position("title").unwrap();
    schema.insert_with_position("body").unwrap();
    schema.insert_with_position("date").unwrap();
    schema.update_ranked(vec!["date", "rank"]).unwrap();
    schema.update_searchable(vec!["body", "title"]).unwrap();
    // every field displayed, a list of searchable ones
    assert!(schema.is_displayed_all());
    assert!(!schema.is_searchable_all());

    let state = schema.snapshot();
    assert_eq!(
        state,
        Snapshot {
            names: vec!["id", "title", "body", "date", "rank"]
                .into_iter()
                .map(String::from)
                .collect(),
            primary_key: Some(FieldId(0)),
            ranked: vec![FieldId(3), FieldId(4)],
            displayed: None,
            searchable: Some(vec![FieldId(2), FieldId(1)]),
            positions: vec![FieldId(2), FieldId(1), FieldId(3)],
        }
    );
    let restored = Schema::restore(&state).unwrap();
    assert_eq!(restored.snapshot(), state);
    assert_eq!(restored.primary_key(), Some("id"));
    assert_eq!(restored.names(), schema.names());
    assert_eq!(restored.is_displayed_all(), schema.is_displayed_all());
    assert_eq!(restored.is_searchable_all(), schema.is_searchable_all());
    assert_eq!(restored.searchable_attributes_str(), vec!["body", "title"]);
    assert_eq!(restored.displayed_names(), schema.displayed_names());
    for number in 0..6 {
        let id = FieldId(number);
        assert_eq!(restored.name(id), schema.name(id));
        assert_eq!(restored.is_ranked(id), schema.is_ranked(id));
        assert_eq!(restored.is_displayed(id), schema.is_displayed(id));
        assert_eq!(restored.get_position(id), schema.get_position(id));
        let pos = IndexedPos(number);
        assert_eq!(restored.indexed_pos_to_field_id(pos), schema.indexed_pos_to_field_id(pos));
    }

    // the other mix: a list of displayed fields, every field searchable
    schema.update_displayed(vec!["title", "id"]).unwrap();
    schema.set_all_fields_as_indexed();
    let state = schema.snapshot();
    assert_eq!(state.displayed, Some(vec![FieldId(0), FieldId(1)]));
    assert_eq!(state.searchable, None);
    let restored = Schema::restore(&state).unwrap();
    assert_eq!(restored.snapshot(), state);
    assert_eq!(restored.displayed_names(), vec!["id", "title"]);
    assert_eq!(
        restored.searchable_attributes_str(),
        vec!["body", "title", "date", "id", "rank"]
    );
}

#[test]
fn restore_ignores_order_and_repeats_in_sets() {
    let state = Snapshot {
        names: vec!["a".to_string(), "b".to_string(), "c".to_string()],
        primary_key: None,
        ranked: vec![FieldId(2), FieldId(0), FieldId(2)],
        displayed: Some(vec![FieldId(1), FieldId(1), FieldId(0)]),
        searchable: Some(vec![FieldId(2), FieldId(2)]),
        positions: vec![FieldId(9), FieldId(1)],
    };
    let schema = Schema::restore(&state).unwrap();
    let again = schema.snapshot();
    assert_eq!(again.ranked, vec![FieldId(0), FieldId(2)]);
    assert_eq!(again.displayed, Some(vec![FieldId(0), FieldId(1)]));
    assert_eq!(again.searchable, Some(vec![FieldId(2), FieldId(2)]));
    assert_eq!(again.positions, vec![FieldId(9), FieldId(1)]);
    assert_eq!(again.names, state.names);
}

fn valid_state() -> Snapshot {
    Snapshot {
        names: vec!["a".to_string(), "b".to_string()],
        primary_key: Some(FieldId(1)),
        ranked: vec![FieldId(0)],
        displayed: Some(vec![FieldId(1)]),
        searchable: Some(vec![FieldId(1), FieldId(0)]),
        positions: vec![FieldId(1), FieldId(0)],
    }
}

#[test]
fn restore_refuses_what_is_no_schema() {
    assert!(Schema::restore(&valid_state()).is_some());

    let mut state = valid_state();
    state.names.push("a".to_string());
    assert!(Schema::restore(&state).is_none());

    let mut state = valid_state();
    state.positions.push(FieldId(1));
    assert!(Schema::restore(&state).is_none());

    let mut state = valid_state();
    state.primary_key = Some(FieldId(2));
    assert!(Schema::restore(&state).is_none());

    let mut state = valid_state();
    state.ranked.push(FieldId(2));
    assert!(Schema::restore(&state).is_none());

    let mut state = valid_state();
    state.displayed = Some(vec![FieldId(0), FieldId(7)]);
    assert!(Schema::restore(&state).is_none());

    let mut state = valid_state();
    state.searchable = Some(vec![FieldId(3)]);
    assert!(Schema::restore(&state).is_none());
}

#[test]
fn restore_refuses_too_many_names() {
    let mut names = many_names();
    let state = |names: Vec<String>| Snapshot {
        names,
        primary_key: None,
        ranked: vec![],
        displayed: None,
        searchable: None,
        positions: vec![],
    };
    let schema = Schema::restore(&state(names.clone())).unwrap();
    assert_eq!(schema.names().len(), 65535);
    assert_eq!(schema.id("65534"), Some(FieldId(65534)));
    names.push("one too many".to_string());
    assert!(Schema::restore(&state(names)).is_none());
}

#[test]
fn ranked_fields() {
    let mut schema = Schema::new();
    assert_eq!(schema.set_ranked("price"), Ok(FieldId(0)));
    assert_eq!(schema.set_ranked("date"), Ok(FieldId(1)));
    assert_eq!(schema.set_ranked("price"), Ok(FieldId(0)));
    assert!(schema.is_ranked(FieldId(0)));
    assert!(schema.is_ranked(FieldId(1)));
    assert!(!schema.is_ranked(FieldId(2)));
    assert_eq!(schema.ranked().len(), 2);
    assert!(schema.ranked().contains(&0));
    assert!(schema.ranked().contains(&1));

    schema.update_ranked(vec!["stock", "date", "stock"]).unwrap();
    assert!(!schema.is_ranked(FieldId(0)));
    assert!(schema.is_ranked(FieldId(1)));
    assert!(schema.is_ranked(FieldId(2)));
    assert_eq!(schema.ranked().len(), 2);
    assert_eq!(schema.names(), vec!["price", "date", "stock"]);

    schema.clear_ranked();
    assert!(schema.ranked().is_empty());
    assert!(!schema.is_ranked(FieldId(1)));
    // ranking gives no position and leaves the other settings alone
    assert_eq!(schema.get_position(FieldId(1)), None);
    assert!(schema.is_displayed_all());
    assert!(schema.is_searchable_all());
}

#[test]
fn ranked_starts_empty() {
    let mut schema = Schema::new();
    schema.insert("a").unwrap();
    assert!(!schema.is_ranked(FieldId(0)));
    assert!(schema.is_displayed(FieldId(0)));
}

#[test]
fn displayed_fields() {
    let mut schema = Schema::new();
    schema.insert("a").unwrap();
    schema.insert("b").unwrap();
    // every field, those to come too
    assert!(schema.is_displayed_all());
    assert!(schema.is_displayed(FieldId(1)));
    assert!(schema.is_displayed(FieldId(40)));
    assert_eq!(schema.displayed_names(), vec!["a", "b"]);
    assert_eq!(schema.displayed(), vec![FieldId(0), FieldId(1)]);

    schema.update_displayed(vec!["c", "a", "c"]).unwrap();
    assert!(!schema.is_displayed_all());
    assert!(schema.is_displayed(FieldId(0)));
    assert!(!schema.is_displayed(FieldId(1)));
    assert!(schema.is_displayed(FieldId(2)));
    assert!(!schema.is_displayed(FieldId(40)));
    assert_eq!(schema.displayed_names(), vec!["a", "c"]);
    // a later field is not displayed
    schema.insert("d").unwrap();
    assert!(!schema.is_displayed(FieldId(3)));
    assert_eq!(schema.displayed_names(), vec!["a", "c"]);

    schema.set_all_fields_as_displayed();
    assert!(schema.is_displayed_all());
    assert_eq!(schema.displayed_names(), vec!["a", "b", "c", "d"]);
    schema.insert("e").unwrap();
    assert_eq!(schema.displayed_names(), vec!["a", "b", "c", "d", "e"]);
}

#[test]
fn nothing_displayed() {
    let mut schema = Schema::new();
    schema.insert("a").unwrap();
    schema.update_displayed(vec![]).unwrap();
    assert!(!schema.is_displayed_all());
    assert!(!schema.is_displayed(FieldId(0)));
    assert_eq!(schema.displayed_names(), Vec::<&str>::new());
    assert_eq!(schema.snapshot().displayed, Some(vec![]));
}

#[test]
fn update_searchable_moves_listed_fields_to_the_front() {
    let mut schema = Schema::new();
    for name in ["a", "b", "c", "d"] {
        schema.insert_with_position(name).unwrap();
    }
    schema.update_searchable(vec!["c", "new", "a"]).unwrap();
    // the listed ones in front, the others behind in the order they had
    assert_eq!(
        schema.snapshot().positions,
        vec![FieldId(2), FieldId(4), FieldId(0), FieldId(1), FieldId(3)]
    );
    assert_eq!(schema.searchable_attributes_str(), vec!["c", "new", "a"]);
    assert_eq!(schema.indexed_pos_to_field_id(IndexedPos(1)), Some(FieldId(4)));
    assert_eq!(schema.indexed_pos_to_field_id(IndexedPos(5)), None);
    // all fields again: the order of the positions stays
    schema.set_all_fields_as_indexed();
    assert_eq!(schema.searchable_attributes_str(), vec!["c", "new", "a", "b", "d"]);
    assert_eq!(
        schema.searchable_attributes(),
        vec![FieldId(2), FieldId(4), FieldId(0), FieldId(1), FieldId(3)]
    );
}

#[test]
fn update_searchable_with_a_name_twice() {
    let mut schema = Schema::new();
    for name in ["a", "b", "c"] {
        schema.insert_with_position(name).unwrap();
    }
    // the second "a" moves the field from the front to where its index points
    schema.update_searchable(vec!["a", "a"]).unwrap();
    assert_eq!(schema.snapshot().positions, vec![FieldId(1), FieldId(2), FieldId(0)]);
    assert_eq!(schema.searchable_attributes_str(), vec!["a", "a"]);

    let mut schema = Schema::new();
    schema.update_searchable(vec!["a", "a", "a", "b"]).unwrap();
    assert_eq!(schema.snapshot().positions, vec![FieldId(0), FieldId(1)]);
}

#[test]
fn update_searchable_with_nothing() {
    let mut schema = Schema::new();
    schema.insert_with_position("a").unwrap();
    schema.update_searchable(vec![]).unwrap();
    assert!(!schema.is_searchable_all());
    assert_eq!(schema.searchable_attributes_str(), Vec::<&str>::new());
    assert_eq!(schema.snapshot().positions, vec![FieldId(0)]);
}

#[test]
fn unknown_positions_are_not_listed() {
    let mut schema = Schema::new();
    schema.insert_position_last(FieldId(5));
    schema.insert_with_position("a").unwrap();
    assert_eq!(schema.get_position(FieldId(5)), Some(IndexedPos(0)));
    assert_eq!(schema.get_position(FieldId(0)), Some(IndexedPos(1)));
    assert_eq!(schema.searchable_attributes(), vec![FieldId(0)]);
    assert_eq!(schema.searchable_attributes_str(), vec!["a"]);
}

#[test]
fn insert_fails_on_a_full_schema() {
    let mut schema = full_schema();
    let before = schema.names().len();
    assert_eq!(before, 65535);
    assert_eq!(schema.insert("new"), Err(Error::MaxFieldsLimitExceeded));
    assert_eq!(schema.set_ranked("new"), Err(Error::MaxFieldsLimitExceeded));
    assert_eq!(schema.insert_with_position("new"), Err(Error::MaxFieldsLimitExceeded));
    assert_eq!(schema.set_primary_key("new"), Err(Error::MaxFieldsLimitExceeded));
    assert_eq!(schema.names().len(), before);
    assert_eq!(schema.id("new"), None);
    assert_eq!(schema.primary_key(), None);
    assert!(schema.ranked().is_empty());
    assert_eq!(schema.get_position(FieldId(u16::MAX)), None);
    // known names still work
    assert_eq!(schema.insert("12"), Ok(FieldId(12)));
    assert_eq!(schema.set_primary_key("7"), Ok(FieldId(7)));
}

#[test]
fn updates_fail_as_a_whole() {
    let mut schema = full_schema();
    schema.update_ranked(vec!["1"]).unwrap();
    schema.update_displayed(vec!["2"]).unwrap();
    schema.update_searchable(vec!["3", "4"]).unwrap();
    let before = schema.snapshot();

    assert_eq!(schema.update_ranked(vec!["5", "new"]), Err(Error::MaxFieldsLimitExceeded));
    assert_eq!(schema.snapshot(), before);
    assert_eq!(schema.update_displayed(vec!["new", "5"]), Err(Error::MaxFieldsLimitExceeded));
    assert_eq!(schema.snapshot(), before);
    assert_eq!(
        schema.update_searchable(vec!["5", "new", "6"]),
        Err(Error::MaxFieldsLimitExceeded)
    );
    assert_eq!(schema.snapshot(), before);
    assert!(schema.is_ranked(FieldId(1)));
    assert!(!schema.is_ranked(FieldId(5)));
    assert_eq!(schema.get_position(FieldId(5)), None);
    assert_eq!(schema.searchable_attributes_str(), vec!["3", "4"]);
}

#[test]
fn clone_is_independent() {
    let mut schema = Schema::with_primary_key("id");
    schema.insert_with_position("a").unwrap();
    schema.update_ranked(vec!["a"]).unwrap();
    schema.update_displayed(vec!["id"]).unwrap();
    let copy = schema.clone();
    assert_eq!(copy.snapshot(), schema.snapshot());
    schema.update_searchable(vec!["b"]).unwrap();
    assert_eq!(copy.id("b"), None);
    assert!(copy.is_searchable_all());
    assert_eq!(copy.primary_key(), Some("id"));
    assert!(copy.is_ranked(FieldId(1)));
}

/// A small generator of numbers that looks random and always gives the same.
fn next_number(state: &mut u32) -> u32 {
    *state = state.wrapping_mul(1664525).wrapping_add(1013904223);
    *state >> 16
}

#[test]
fn update_searchable_agrees_with_moves_one_by_one() {
    let pool = ["a", "b", "c", "d", "e", "f", "g", "h"];
    let mut state: u32 = 7;
    for _ in 0..60 {
        let mut schema = Schema::new();
        let mut names: Vec<&str> = Vec::new();
        let mut order: Vec<u16> = Vec::new();
        for _ in 0..4 {
            let count = (next_number(&mut state) % 6) as usize;
            let list: Vec<&str> =
                (0..count).map(|_| pool[(next_number(&mut state) % 8) as usize]).collect();
            // what the list does to a plain list of names and a plain order
            let mut ids: Vec<u16> = Vec::new();
            for name in &list {
                if !names.contains(name) {
                    names.push(name);
                }
                ids.push(names.iter().position(|known| known == name).unwrap() as u16);
            }
            for (index, id) in ids.iter().enumerate() {
                let mut pos = index;
                if let Some(old) = order.iter().position(|f| f == id) {
                    order.remove(old);
                    if old < pos {
                        pos += 1;
                    }
                }
                if pos < order.len() {
                    order.insert(pos, *id);
                } else {
                    order.push(*id);
                }
            }
            schema.update_searchable(list.clone()).unwrap();
            let state_now = schema.snapshot();
            assert_eq!(schema.names(), names);
            assert_eq!(state_now.searchable, Some(ids.iter().map(|id| FieldId(*id)).collect()));
            assert_eq!(
                state_now.positions,
                order.iter().map(|id| FieldId(*id)).collect::<Vec<FieldId>>()
            );
            assert_eq!(schema.searchable_attributes_str(), list);
        }
    }
}
