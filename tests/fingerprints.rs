use trace_cache::fingerprint::{
    directory_fingerprint, file_fingerprint, link_fingerprint, DirEntry, EntryType, FileRead,
    LinkState,
};

fn blake3_text(data: &[u8]) -> Vec<u8> {
    blake3::hash(data).to_hex().as_str()[..32].as_bytes().to_vec()
}

fn entry(name: &str, kind: Option<EntryType>) -> DirEntry {
    DirEntry { name: name.as_bytes().to_vec(), kind }
}

#[test]
fn link_fingerprints() {
    assert_eq!(link_fingerprint(&LinkState::Missing), b"-".to_vec());
    assert_eq!(link_fingerprint(&LinkState::Directory), b"d".to_vec());
    assert_eq!(link_fingerprint(&LinkState::Other), b"+".to_vec());
    assert_eq!(link_fingerprint(&LinkState::Symlink(b"../t".to_vec())), b"l../t".to_vec());
}

#[test]
fn symlink_target_change_is_seen() {
    let to_b = link_fingerprint(&LinkState::Symlink(b"b".to_vec()));
    let to_c = link_fingerprint(&LinkState::Symlink(b"c".to_vec()));
    assert_eq!(to_b, b"lb".to_vec());
    assert_ne!(to_b, to_c);
}

#[test]
fn file_fingerprints() {
    assert_eq!(file_fingerprint(&FileRead::NotFound), b"-".to_vec());
    assert_eq!(file_fingerprint(&FileRead::Failed), b"e".to_vec());
    let fp = file_fingerprint(&FileRead::Content(b"A".to_vec()));
    assert_eq!(fp.len(), 32);
    assert_eq!(fp, blake3_text(b"A"));
    assert_ne!(fp, b"A".to_vec());
}

#[test]
fn empty_file_digest_is_known_value() {
    assert_eq!(
        file_fingerprint(&FileRead::Content(Vec::new())),
        b"af1349b9f5f9a1a6a0404dea36dcc949".to_vec()
    );
}

#[test]
fn file_content_change_and_revert() {
    let a = file_fingerprint(&FileRead::Content(b"A".to_vec()));
    let b = file_fingerprint(&FileRead::Content(b"B".to_vec()));
    let a_again = file_fingerprint(&FileRead::Content(b"A".to_vec()));
    assert_ne!(a, b);
    assert_eq!(a, a_again);
}

#[test]
fn directory_digest_is_hash_of_sorted_records() {
    let listing = vec![entry("b", Some(EntryType::File)), entry("a", Some(EntryType::Directory))];
    let fp = directory_fingerprint(&Some(listing));
    assert_eq!(fp, blake3_text(b"a=d\0b=f\0"));
}

#[test]
fn directory_digest_ignores_listing_order() {
    let one = vec![
        entry("x", Some(EntryType::Symlink)),
        entry("y", Some(EntryType::Unknown)),
        entry("z", Some(EntryType::File)),
    ];
    let two = vec![
        entry("z", Some(EntryType::File)),
        entry("x", Some(EntryType::Symlink)),
        entry("y", Some(EntryType::Unknown)),
    ];
    assert_eq!(directory_fingerprint(&Some(one)), directory_fingerprint(&Some(two)));
}

#[test]
fn directory_entry_added_or_removed_changes_digest() {
    let base = vec![entry("a", Some(EntryType::File))];
    let more = vec![entry("a", Some(EntryType::File)), entry("b", Some(EntryType::File))];
    let none: Vec<DirEntry> = Vec::new();
    let fa = directory_fingerprint(&Some(base));
    assert_ne!(fa, directory_fingerprint(&Some(more)));
    assert_ne!(fa, directory_fingerprint(&Some(none)));
}

#[test]
fn directory_entry_type_change_changes_digest() {
    let f = directory_fingerprint(&Some(vec![entry("a", Some(EntryType::File))]));
    let d = directory_fingerprint(&Some(vec![entry("a", Some(EntryType::Directory))]));
    assert_ne!(f, d);
}

#[test]
fn directory_entry_of_unknown_type_is_left_out() {
    let with = vec![entry("a", Some(EntryType::File)), entry("b", None)];
    let without = vec![entry("a", Some(EntryType::File))];
    assert_eq!(directory_fingerprint(&Some(with)), directory_fingerprint(&Some(without)));
}

#[test]
fn unreadable_directory_is_missing() {
    assert_eq!(directory_fingerprint(&None), b"-".to_vec());
}

#[test]
fn missing_path_is_stable_for_every_kind() {
    assert_eq!(link_fingerprint(&LinkState::Missing), b"-".to_vec());
    assert_eq!(file_fingerprint(&FileRead::NotFound), b"-".to_vec());
    assert_eq!(directory_fingerprint(&None), b"-".to_vec());
}

#[test]
fn digest_text_is_hex_of_first_sixteen_bytes() {
    let d: Vec<u8> = (0u8..32).map(|i| i * 8 + 1).collect();
    let text = trace_cache::fingerprint::digest_to_text(&d);
    assert_eq!(text, b"01091119212931394149515961697179".to_vec());
}

#[test]
fn digest_text_of_high_bytes() {
    let d = vec![0xffu8; 32];
    assert_eq!(trace_cache::fingerprint::digest_to_text(&d), b"ffffffffffffffffffffffffffffffff".to_vec());
}

#[test]
fn listing_bytes_are_sorted_records() {
    let listing = vec![
        entry("zeta", Some(EntryType::Unknown)),
        entry("a", Some(EntryType::Symlink)),
        entry("gone", None),
        entry("m", Some(EntryType::Directory)),
    ];
    assert_eq!(
        trace_cache::fingerprint::listing_bytes(&listing),
        b"a=l\0m=d\0zeta=u\0".to_vec()
    );
}

#[test]
fn listing_bytes_order_by_bytes_not_name_length() {
    let listing = vec![entry("ab", Some(EntryType::File)), entry("a", Some(EntryType::File))];
    assert_eq!(trace_cache::fingerprint::listing_bytes(&listing), b"a=f\0ab=f\0".to_vec());
}

#[test]
fn unreadable_link_is_error_marker() {
    assert_eq!(link_fingerprint(&LinkState::Unreadable), b"e".to_vec());
}

#[test]
fn added_entry_lengthens_listing_bytes_by_its_record() {
    let before = vec![entry("a", Some(EntryType::File))];
    let after = vec![entry("a", Some(EntryType::File)), entry("bcd", Some(EntryType::Directory))];
    let b1 = trace_cache::fingerprint::listing_bytes(&before);
    let b2 = trace_cache::fingerprint::listing_bytes(&after);
    assert_eq!(b2.len(), b1.len() + 3 + 3);
    assert_eq!(b2, b"a=f\0bcd=d\0".to_vec());
}
