use trace_cache::trace::{LoadError, Trace};

fn record(kind: u8, path: &str, value: &str) -> Vec<u8> {
    let mut out = vec![0u8, kind];
    out.extend_from_slice(path.as_bytes());
    out.push(0);
    out.extend_from_slice(value.as_bytes());
    out
}

#[test]
fn load_then_serialize_sorts_by_key() {
    let mut bytes = record(b'f', "/b", "x");
    bytes.extend(record(b's', "/a", "-"));
    bytes.extend(record(b'd', "/c", "y"));
    bytes.push(0);
    let t = Trace::load(bytes).ok().unwrap();
    assert_eq!(t.len(), 3);
    let mut expected = record(b'd', "/c", "y");
    expected.extend(record(b'f', "/b", "x"));
    expected.extend(record(b's', "/a", "-"));
    assert_eq!(t.serialize(), expected);
}

#[test]
fn round_trip_gives_same_entries() {
    let mut bytes = record(b's', "/x/y", "lz");
    bytes.extend(record(b'f', "/x/z", "0123456789abcdef0123456789abcdef"));
    bytes.push(0);
    let t = Trace::load(bytes.clone()).ok().unwrap();
    let again = Trace::load(t.serialize()).ok().unwrap();
    assert_eq!(again.serialize(), t.serialize());
    let mut with_end = t.serialize();
    with_end.push(0);
    let mut sorted = record(b'f', "/x/z", "0123456789abcdef0123456789abcdef");
    sorted.extend(record(b's', "/x/y", "lz"));
    sorted.push(0);
    assert_eq!(with_end, sorted);
}

#[test]
fn later_duplicate_key_wins() {
    let mut bytes = record(b'f', "/a", "old");
    bytes.extend(record(b'f', "/a", "new"));
    bytes.push(0);
    let t = Trace::load(bytes).ok().unwrap();
    assert_eq!(t.len(), 1);
    assert_eq!(t.stored_fingerprint(0), &b"new".to_vec());
}

#[test]
fn empty_fields_are_ignored() {
    let bytes = b"\0\0fa\0\0\0-\0\0".to_vec();
    let t = Trace::load(bytes).ok().unwrap();
    assert_eq!(t.serialize(), b"\0fa\0-".to_vec());
}

#[test]
fn empty_buffer_is_empty_trace() {
    let t = Trace::load(Vec::new()).ok().unwrap();
    assert_eq!(t.len(), 0);
    assert_eq!(t.serialize(), Vec::<u8>::new());
    let t = Trace::load(vec![0u8]).ok().unwrap();
    assert_eq!(t.len(), 0);
}

#[test]
fn odd_field_count_is_rejected() {
    let bytes = b"\0f/a\0-\0f/b\0".to_vec();
    assert_eq!(Trace::load(bytes).err(), Some(LoadError::OddFieldCount));
}

#[test]
fn unknown_kind_is_rejected() {
    let bytes = b"\0x/a\0-\0".to_vec();
    assert_eq!(Trace::load(bytes).err(), Some(LoadError::UnknownKind));
}
