use meilisearch_schema::{Error, FieldId, FieldsMap, IndexedPos};

#[test]
fn insert_counts_up_from_zero() {
    let mut map = FieldsMap::new();
    assert_eq!(map.len(), 0);
    assert_eq!(map.insert("zeta"), Ok(FieldId(0)));
    assert_eq!(map.insert("alpha"), Ok(FieldId(1)));
    assert_eq!(map.insert("mu"), Ok(FieldId(2)));
    assert_eq!(map.len(), 3);
    assert_eq!(map.names(), vec!["zeta", "alpha", "mu"]);
}

#[test]
fn insert_again_returns_the_same_identifier() {
    let mut map = FieldsMap::new();
    let first = map.insert("title").unwrap();
    map.insert("body").unwrap();
    let count = map.names().len();
    assert_eq!(map.insert("title"), Ok(first));
    assert_eq!(map.names().len(), count);
    assert_eq!(map.names(), vec!["title", "body"]);
}

#[test]
fn id_and_name_are_inverse() {
    let mut map = FieldsMap::default();
    for name in ["a", "b", "c"] {
        map.insert(name).unwrap();
    }
    assert_eq!(map.id("b"), Some(FieldId(1)));
    assert_eq!(map.name(FieldId(1)), Some("b"));
    assert_eq!(map.id("d"), None);
    assert_eq!(map.name(FieldId(3)), None);
    for number in 0..3 {
        let name = map.name(FieldId(number)).unwrap();
        assert_eq!(map.id(name), Some(FieldId(number)));
    }
}

#[test]
fn names_are_stable() {
    let mut map = FieldsMap::new();
    map.insert("x").unwrap();
    map.insert("y").unwrap();
    assert_eq!(map.names(), map.names());
    assert_eq!(map.names(), vec!["x", "y"]);
}

#[test]
fn empty_name_is_a_name() {
    let mut map = FieldsMap::new();
    assert_eq!(map.insert(""), Ok(FieldId(0)));
    assert_eq!(map.insert("x"), Ok(FieldId(1)));
    assert_eq!(map.insert(""), Ok(FieldId(0)));
    assert_eq!(map.id(""), Some(FieldId(0)));
}

/// A map with the names `"0"`, `"1"`, ... up to the last identifier that is issued.
fn full_map() -> FieldsMap {
    let mut map = FieldsMap::new();
    for number in 0..u16::MAX {
        assert_eq!(map.insert(&number.to_string()), Ok(FieldId(number)));
    }
    map
}

#[test]
fn insert_fails_when_the_identifiers_are_used_up() {
    let mut map = full_map();
    assert_eq!(map.len(), 65535);
    assert_eq!(map.insert("one too many"), Err(Error::MaxFieldsLimitExceeded));
    // nothing changed
    assert_eq!(map.len(), 65535);
    assert_eq!(map.id("one too many"), None);
    assert_eq!(map.name(FieldId(u16::MAX)), None);
    // a known name is still found
    assert_eq!(map.insert("65534"), Ok(FieldId(65534)));
    assert_eq!(map.insert("0"), Ok(FieldId(0)));
}

#[test]
fn insert_all_returns_the_identifiers_in_order() {
    let mut map = FieldsMap::new();
    map.insert("b").unwrap();
    let ids = map.insert_all(&vec!["a", "b", "a", "c"]).unwrap();
    assert_eq!(ids, vec![FieldId(1), FieldId(0), FieldId(1), FieldId(2)]);
    assert_eq!(map.names(), vec!["b", "a", "c"]);
}

#[test]
fn insert_all_interns_all_or_nothing() {
    let mut map = full_map();
    let before = map.len();
    assert_eq!(
        map.insert_all(&vec!["3", "new", "4"]),
        Err(Error::MaxFieldsLimitExceeded)
    );
    assert_eq!(map.len(), before);
    assert_eq!(map.id("new"), None);
    assert_eq!(map.insert_all(&vec!["3", "4"]), Ok(vec![FieldId(3), FieldId(4)]));
}

#[test]
fn insert_all_undoes_what_it_began() {
    let mut map = FieldsMap::new();
    for number in 0..u16::MAX - 2 {
        map.insert(&number.to_string()).unwrap();
    }
    // room for two, three are new
    let r = map.insert_all(&vec!["x", "1", "y", "x", "z"]);
    assert_eq!(r, Err(Error::MaxFieldsLimitExceeded));
    assert_eq!(map.len(), 65533);
    assert_eq!(map.id("x"), None);
    assert_eq!(map.id("y"), None);
    assert_eq!(map.id("1"), Some(FieldId(1)));
    // and the identifiers that were handed out in between are free again
    assert_eq!(map.insert("y"), Ok(FieldId(65533)));
    assert_eq!(map.insert("x"), Ok(FieldId(65534)));
    assert_eq!(map.insert("z"), Err(Error::MaxFieldsLimitExceeded));
}

#[test]
fn clone_keeps_names_and_identifiers() {
    let mut map = FieldsMap::new();
    map.insert("a").unwrap();
    map.insert("b").unwrap();
    let mut copy = map.clone();
    assert_eq!(copy.names(), vec!["a", "b"]);
    assert_eq!(copy.id("b"), Some(FieldId(1)));
    assert_eq!(copy.insert("c"), Ok(FieldId(2)));
    assert_eq!(map.id("c"), None);
}

#[test]
fn field_id_next() {
    assert_eq!(FieldId::min(), FieldId(0));
    assert_eq!(FieldId::max(), FieldId(65535));
    assert_eq!(FieldId::new(7).next(), Ok(FieldId(8)));
    assert_eq!(FieldId(65534).next(), Ok(FieldId(65535)));
    assert_eq!(FieldId::max().next(), Err(Error::MaxFieldsLimitExceeded));
}

#[test]
fn conversions() {
    let id: FieldId = 3.into();
    assert_eq!(id, FieldId(3));
    assert_eq!(u16::from(id), 3);
    let pos: IndexedPos = 4.into();
    assert_eq!(pos, IndexedPos::new(4));
    assert_eq!(u16::from(pos), 4);
    assert_eq!(IndexedPos::min(), IndexedPos(0));
    assert_eq!(IndexedPos::max(), IndexedPos(65535));
    assert!(FieldId(1) < FieldId(2));
    assert_eq!(FieldId::default(), FieldId(0));
}

#[test]
fn error_messages() {
    assert_eq!(Error::PrimaryKeyAlreadyPresent.message(), "a primary key is already present");
    assert_eq!(
        Error::MaxFieldsLimitExceeded.message(),
        "the maximum of fields for a schema is reached"
    );
}
