//! Current fingerprints of paths, computed from what the filesystem reported.
use vstd::prelude::*;
use itertools::Itertools;
use crate::order::{lex_lt, lemma_lex_irreflexive, lemma_lex_total, lemma_lex_transitive};
use vstd::relations::{sorted_by, total_ordering};
use crate::trace::byte_views;

verus! {

broadcast use vstd::seq_lib::group_to_multiset_ensures;

/// The 32-byte BLAKE3 digest of `data`.
pub uninterp spec fn blake3_digest(data: Seq<u8>) -> Seq<u8>;

/// Relies on `blake3::hash`: the BLAKE3 digest of `data`, 32 bytes long.
#[verifier::external_body]
fn digest(data: &[u8]) -> (r: Vec<u8>)
    ensures
        r@ == blake3_digest(data@),
        r@.len() == 32,
{
    blake3::hash(data).as_bytes().to_vec()
}

/// Every item comes no later than the ones after it, in byte-wise
/// lexicographic order.
pub open spec fn ascending(s: Seq<Seq<u8>>) -> bool {
    forall|i: int, j: int| 0 <= i < j < s.len() ==> !lex_lt(#[trigger] s[j], #[trigger] s[i])
}

/// Relies on `itertools::Itertools::sorted`: the same items in ascending
/// order, which for byte vectors is lexicographic order.
#[verifier::external_body]
fn sort_records(v: Vec<Vec<u8>>) -> (r: Vec<Vec<u8>>)
    ensures
        byte_views(r@).to_multiset() == byte_views(v@).to_multiset(),
        ascending(byte_views(r@)),
{
    v.into_iter().sorted().collect()
}

/// Two ascending sequences with the same items are equal.
pub proof fn lemma_ascending_unique(a: Seq<Seq<u8>>, b: Seq<Seq<u8>>)
    requires
        ascending(a),
        ascending(b),
        a.to_multiset() == b.to_multiset(),
    ensures
        a == b,
    decreases a.len(),
{
    assert(a.len() == a.to_multiset().len());
    assert(b.len() == b.to_multiset().len());
    if a.len() > 0 {
        assert(b.to_multiset().count(a[0]) > 0);
        assert(b.contains(a[0]));
        assert(a.to_multiset().count(b[0]) > 0);
        assert(a.contains(b[0]));
        let j = choose|j: int| 0 <= j < b.len() && b[j] == a[0];
        let i = choose|i: int| 0 <= i < a.len() && a[i] == b[0];
        if a[0] != b[0] {
            lemma_lex_total(a[0], b[0]);
            assert(j != 0 && i != 0);
            assert(!lex_lt(b[j], b[0]));
            assert(!lex_lt(a[i], a[0]));
        }
        let a2 = a.remove(0);
        let b2 = b.remove(0);
        assert(a2.to_multiset() =~= a.to_multiset().remove(a[0]));
        assert(b2.to_multiset() =~= b.to_multiset().remove(b[0]));
        assert(ascending(a2)) by {
            assert forall|x: int, y: int| 0 <= x < y < a2.len() implies !lex_lt(#[trigger] a2[y], #[trigger] a2[x]) by {
                assert(a2[y] == a[y + 1] && a2[x] == a[x + 1]);
            }
        }
        assert(ascending(b2)) by {
            assert forall|x: int, y: int| 0 <= x < y < b2.len() implies !lex_lt(#[trigger] b2[y], #[trigger] b2[x]) by {
                assert(b2[y] == b[y + 1] && b2[x] == b[x + 1]);
            }
        }
        lemma_ascending_unique(a2, b2);
        assert(a =~= b2.insert(0, b[0]));
        assert(b =~= b2.insert(0, b[0]));
    } else {
        assert(a =~= b);
    }
}

/// The lowercase hexadecimal digit for `n < 16`.
pub open spec fn hex_digit(n: u8) -> u8 {
    if n < 10 {
        (48 + n) as u8
    } else {
        (87 + n) as u8
    }
}

/// Two lowercase hexadecimal digits per byte, high nibble first.
pub open spec fn hex(b: Seq<u8>) -> Seq<u8>
    decreases b.len(),
{
    if b.len() == 0 {
        Seq::empty()
    } else {
        hex(b.drop_last()) + seq![hex_digit(b.last() / 16), hex_digit(b.last() % 16)]
    }
}

/// The stored form of a digest: the hex of its first 128 bits.
pub open spec fn digest_text(data: Seq<u8>) -> Seq<u8> {
    hex(blake3_digest(data).subrange(0, 16))
}

/// The stored text of a digest `d`: the hex of its first 16 bytes.
pub fn digest_to_text(d: &Vec<u8>) -> (r: Vec<u8>)
    requires
        d@.len() >= 16,
    ensures
        r@ == hex(d@.subrange(0, 16)),
{
    hex_prefix(d, 16)
}

fn hex_prefix(d: &Vec<u8>, n: usize) -> (r: Vec<u8>)
    requires
        n <= d@.len(),
    ensures
        r@ == hex(d@.subrange(0, n as int)),
{
    let mut r: Vec<u8> = Vec::new();
    let mut i: usize = 0;
    while i < n
        invariant
            i <= n,
            n <= d@.len(),
            r@ == hex(d@.subrange(0, i as int)),
        decreases n - i,
    {
        let b = d[i];
        let hi = b / 16;
        let lo = b % 16;
        r.push(if hi < 10 { 48 + hi } else { 87 + hi });
        r.push(if lo < 10 { 48 + lo } else { 87 + lo });
        let ghost pre = d@.subrange(0, i as int);
        i = i + 1;
        assert(d@.subrange(0, i as int).drop_last() =~= pre);
        assert(r@ =~= hex(d@.subrange(0, i as int)));
    }
    r
}

/// The stored form of the digest of `data`.
fn content_digest(data: &[u8]) -> (r: Vec<u8>)
    ensures
        r@ == digest_text(data@),
{
    let d = digest(data);
    digest_to_text(&d)
}

/// What a query of a path's own metadata, not following symlinks, found.
pub enum LinkState {
    Missing,
    /// A symlink, with the raw bytes of its target.
    Symlink(Vec<u8>),
    Directory,
    /// A regular file, a device or any other entity.
    Other,
    /// The path could not be inspected for a reason other than its absence,
    /// or it is a symlink whose target could not be read.
    Unreadable,
}

/// Fingerprint of a path recorded with kind `s`: `-` when missing, `l`
/// followed by the target for a symlink, `d` for a directory, `e` when it
/// could not be read, `+` otherwise.
pub open spec fn link_fp(state: LinkState) -> Seq<u8> {
    match state {
        LinkState::Missing => seq![45u8],
        LinkState::Symlink(t) => seq![108u8] + t@,
        LinkState::Directory => seq![100u8],
        LinkState::Other => seq![43u8],
        LinkState::Unreadable => seq![101u8],
    }
}

pub fn link_fingerprint(state: &LinkState) -> (r: Vec<u8>)
    ensures
        r@ == link_fp(*state),
{
    match state {
        LinkState::Missing => vec![45u8],
        LinkState::Symlink(t) => {
            let mut r: Vec<u8> = vec![108u8];
            let mut i: usize = 0;
            while i < t.len()
                invariant
                    i <= t@.len(),
                    r@ == seq![108u8] + t@.subrange(0, i as int),
                decreases t.len() - i,
            {
                r.push(t[i]);
                i = i + 1;
                assert(r@ =~= seq![108u8] + t@.subrange(0, i as int));
            }
            assert(t@.subrange(0, t@.len() as int) =~= t@);
            r
        },
        LinkState::Directory => vec![100u8],
        LinkState::Other => vec![43u8],
        LinkState::Unreadable => vec![101u8],
    }
}

/// What reading a whole file gave.
pub enum FileRead {
    Content(Vec<u8>),
    NotFound,
    /// Any error other than not-found.
    Failed,
}

/// Fingerprint of a path recorded with kind `f`: the digest text of the
/// content, `-` when the file is missing, `e` when it could not be read.
pub open spec fn file_fp(read: FileRead) -> Seq<u8> {
    match read {
        FileRead::Content(d) => digest_text(d@),
        FileRead::NotFound => seq![45u8],
        FileRead::Failed => seq![101u8],
    }
}

pub fn file_fingerprint(read: &FileRead) -> (r: Vec<u8>)
    ensures
        r@ == file_fp(*read),
{
    match read {
        FileRead::Content(d) => content_digest(d.as_slice()),
        FileRead::NotFound => vec![45u8],
        FileRead::Failed => vec![101u8],
    }
}

/// The type of a directory entry, as its listing reports it.
#[derive(Debug, Clone, Copy, PartialEq, Eq, Structural)]
pub enum EntryType {
    Symlink,
    File,
    Directory,
    /// A socket, device, FIFO or other entity.
    Unknown,
}

/// One entry of a directory listing; `kind` is `None` when its type could
/// not be determined.
pub struct DirEntry {
    pub name: Vec<u8>,
    pub kind: Option<EntryType>,
}

pub open spec fn type_tag(t: EntryType) -> u8 {
    match t {
        EntryType::Symlink => 108u8,
        EntryType::File => 102u8,
        EntryType::Directory => 100u8,
        EntryType::Unknown => 117u8,
    }
}

/// The bytes `name = tag NUL` that stand for one entry in the digest.
pub open spec fn entry_record(name: Seq<u8>, t: EntryType) -> Seq<u8> {
    name + seq![61u8, type_tag(t), 0u8]
}

/// The records of the entries whose type is known, in listing order.
pub open spec fn listing_records(es: Seq<DirEntry>) -> Seq<Seq<u8>>
    decreases es.len(),
{
    if es.len() == 0 {
        Seq::empty()
    } else {
        let pre = listing_records(es.drop_last());
        match es.last().kind {
            Some(t) => pre.push(entry_record(es.last().name@, t)),
            None => pre,
        }
    }
}

/// The byte strings of `s` one after the other.
pub open spec fn concat(s: Seq<Seq<u8>>) -> Seq<u8>
    decreases s.len(),
{
    if s.len() == 0 {
        Seq::empty()
    } else {
        concat(s.drop_last()) + s.last()
    }
}

/// The records in ascending order; no other ascending order of them exists.
pub open spec fn sorted_records(rs: Seq<Seq<u8>>) -> Seq<Seq<u8>> {
    choose|s: Seq<Seq<u8>>| ascending(s) && s.to_multiset() == rs.to_multiset()
}

/// The digest of a listing: its records in ascending order, hashed as one
/// byte string.
pub open spec fn listing_digest(es: Seq<DirEntry>) -> Seq<u8> {
    digest_text(concat(sorted_records(listing_records(es))))
}

fn entry_type_tag(t: EntryType) -> (r: u8)
    ensures
        r == type_tag(t),
{
    match t {
        EntryType::Symlink => 108u8,
        EntryType::File => 102u8,
        EntryType::Directory => 100u8,
        EntryType::Unknown => 117u8,
    }
}

/// Fingerprint of a path recorded with kind `d`: the digest of its listing,
/// or `-` when the directory could not be opened.
pub open spec fn directory_fp(listing: Option<Vec<DirEntry>>) -> Seq<u8> {
    match listing {
        Some(es) => listing_digest(es@),
        None => seq![45u8],
    }
}

pub fn directory_fingerprint(listing: &Option<Vec<DirEntry>>) -> (r: Vec<u8>)
    ensures
        r@ == directory_fp(*listing),
{
    match listing {
        Some(es) => {
            let input = listing_bytes(es);
            content_digest(input.as_slice())
        },
        None => vec![45u8],
    }
}

/// The bytes that the digest of a listing hashes: the records of the
/// entries of known type, in ascending order, one after the other.
pub fn listing_bytes(es: &Vec<DirEntry>) -> (r: Vec<u8>)
    ensures
        r@ == concat(sorted_records(listing_records(es@))),
{
    let mut records: Vec<Vec<u8>> = Vec::new();
    let mut i: usize = 0;
    while i < es.len()
        invariant
            i <= es@.len(),
            byte_views(records@) == listing_records(es@.subrange(0, i as int)),
        decreases es.len() - i,
    {
        let ghost pre = byte_views(records@);
        assert(es@.subrange(0, i + 1).drop_last() =~= es@.subrange(0, i as int));
        if let Some(t) = es[i].kind {
            let mut rec = es[i].name.clone();
            assert(rec@ =~= es@[i as int].name@);
            rec.push(61u8);
            rec.push(entry_type_tag(t));
            rec.push(0u8);
            assert(rec@ =~= entry_record(es@[i as int].name@, t));
            records.push(rec);
            assert(byte_views(records@) =~= pre.push(rec@));
        }
        i = i + 1;
    }
    assert(es@.subrange(0, es@.len() as int) =~= es@);
    let ghost rs = listing_records(es@);
    let sorted = sort_records(records);
    proof {
        let s = sorted_records(rs);
        assert(ascending(byte_views(sorted@)) && byte_views(sorted@).to_multiset() == rs.to_multiset());
        lemma_ascending_unique(s, byte_views(sorted@));
    }
    let mut input: Vec<u8> = Vec::new();
    let mut k: usize = 0;
    while k < sorted.len()
        invariant
            k <= sorted@.len(),
            input@ == concat(byte_views(sorted@).subrange(0, k as int)),
        decreases sorted.len() - k,
    {
        let ghost pre = byte_views(sorted@).subrange(0, k as int);
        let rec = &sorted[k];
        let mut j: usize = 0;
        let ghost start = input@;
        while j < rec.len()
            invariant
                j <= rec@.len(),
                input@ == start + rec@.subrange(0, j as int),
            decreases rec.len() - j,
        {
            input.push(rec[j]);
            j = j + 1;
            assert(input@ =~= start + rec@.subrange(0, j as int));
        }
        assert(rec@.subrange(0, rec@.len() as int) =~= rec@);
        k = k + 1;
        assert(byte_views(sorted@).subrange(0, k as int).drop_last() =~= pre);
    }
    assert(byte_views(sorted@).subrange(0, sorted@.len() as int) =~= byte_views(sorted@));
    input
}

/// A path that is missing fingerprints as `-` whatever its kind, so a
/// stored `-` for a path that is still missing is no change.
pub proof fn lemma_missing_is_stable()
    ensures
        link_fp(LinkState::Missing) == seq![45u8],
        file_fp(FileRead::NotFound) == seq![45u8],
        directory_fp(None) == seq![45u8],
{
}

/// What the digest sees of each entry: its name and its type.
pub open spec fn entry_views(es: Seq<DirEntry>) -> Seq<(Seq<u8>, Option<EntryType>)> {
    es.map_values(|e: DirEntry| (e.name@, e.kind))
}

/// The records of entries given by name and type.
pub open spec fn view_records(vs: Seq<(Seq<u8>, Option<EntryType>)>) -> Seq<Seq<u8>>
    decreases vs.len(),
{
    if vs.len() == 0 {
        Seq::empty()
    } else {
        let pre = view_records(vs.drop_last());
        match vs.last().1 {
            Some(t) => pre.push(entry_record(vs.last().0, t)),
            None => pre,
        }
    }
}

proof fn lemma_listing_records_views(es: Seq<DirEntry>)
    ensures
        listing_records(es) == view_records(entry_views(es)),
    decreases es.len(),
{
    if es.len() > 0 {
        lemma_listing_records_views(es.drop_last());
        assert(entry_views(es.drop_last()) =~= entry_views(es).drop_last());
    }
}

/// The records of `vs` hold those of `vs` without its entry at `j`, and the
/// record of that entry when its type is known.
proof fn lemma_view_records_remove(vs: Seq<(Seq<u8>, Option<EntryType>)>, j: int)
    requires
        0 <= j < vs.len(),
    ensures
        view_records(vs).to_multiset() == match vs[j].1 {
            Some(t) => view_records(vs.remove(j)).to_multiset().insert(entry_record(vs[j].0, t)),
            None => view_records(vs.remove(j)).to_multiset(),
        },
    decreases vs.len(),
{
    let pre = vs.drop_last();
    if j == vs.len() - 1 {
        assert(vs.remove(j) =~= pre);
    } else {
        lemma_view_records_remove(pre, j);
        let r = vs.remove(j);
        assert(r.drop_last() =~= pre.remove(j));
        assert(r.last() == vs.last());
        assert(pre[j] == vs[j]);
        match vs.last().1 {
            Some(t) => {
                let x = entry_record(vs.last().0, t);
                assert(view_records(vs) == view_records(pre).push(x));
                assert(view_records(r) == view_records(pre.remove(j)).push(x));
                match vs[j].1 {
                    Some(u) => {
                        let y = entry_record(vs[j].0, u);
                        assert(view_records(pre.remove(j)).to_multiset().insert(y).insert(x)
                            =~= view_records(pre.remove(j)).to_multiset().insert(x).insert(y));
                    },
                    None => {},
                }
            },
            None => {
                assert(view_records(vs) == view_records(pre));
                assert(view_records(r) == view_records(pre.remove(j)));
            },
        }
    }
}

proof fn lemma_view_records_permutation(
    a: Seq<(Seq<u8>, Option<EntryType>)>,
    b: Seq<(Seq<u8>, Option<EntryType>)>,
)
    requires
        a.to_multiset() == b.to_multiset(),
    ensures
        view_records(a).to_multiset() == view_records(b).to_multiset(),
    decreases a.len(),
{
    assert(a.len() == a.to_multiset().len());
    assert(b.len() == b.to_multiset().len());
    if a.len() == 0 {
        assert(b =~= a);
    } else {
        let x = a.last();
        let pre = a.drop_last();
        assert(a =~= pre.push(x));
        assert(a.to_multiset() =~= pre.to_multiset().insert(x));
        assert(b.to_multiset().count(x) > 0);
        assert(b.contains(x));
        let j = choose|j: int| 0 <= j < b.len() && b[j] == x;
        let rest = b.remove(j);
        assert(rest.to_multiset() =~= b.to_multiset().remove(x));
        assert(pre.to_multiset() =~= a.to_multiset().remove(x));
        lemma_view_records_permutation(pre, rest);
        lemma_view_records_remove(b, j);
    }
}

/// The digest of a listing does not depend on the order in which the
/// directory enumerated its entries.
pub proof fn lemma_listing_order_independent(a: Seq<DirEntry>, b: Seq<DirEntry>)
    requires
        entry_views(a).to_multiset() == entry_views(b).to_multiset(),
    ensures
        listing_digest(a) == listing_digest(b),
{
    lemma_listing_records_views(a);
    lemma_listing_records_views(b);
    lemma_view_records_permutation(entry_views(a), entry_views(b));
}

/// Pointing a symlink at another target changes its fingerprint; the
/// target is not followed.
pub proof fn lemma_symlink_retarget_detected(s1: LinkState, s2: LinkState)
    requires
        s1 matches LinkState::Symlink(a) && s2 matches LinkState::Symlink(b) && a@ != b@,
    ensures
        link_fp(s1) != link_fp(s2),
{
    if let (LinkState::Symlink(a), LinkState::Symlink(b)) = (s1, s2) {
        assert(link_fp(s1).drop_first() =~= a@);
        assert(link_fp(s2).drop_first() =~= b@);
    }
}

proof fn lemma_lex_le_total_ordering()
    ensures
        total_ordering(|a: Seq<u8>, b: Seq<u8>| !lex_lt(b, a)),
{
    let le = |a: Seq<u8>, b: Seq<u8>| !lex_lt(b, a);
    assert forall|a: Seq<u8>| #[trigger] le(a, a) by {
        lemma_lex_irreflexive(a);
    }
    assert forall|a: Seq<u8>, b: Seq<u8>| #[trigger] le(a, b) && #[trigger] le(b, a) implies a == b by {
        if a != b {
            lemma_lex_total(a, b);
        }
    }
    assert forall|a: Seq<u8>, b: Seq<u8>, c: Seq<u8>| #[trigger] le(a, b) && #[trigger] le(b, c) implies le(a, c) by {
        if lex_lt(c, a) {
            if a == b {
            } else {
                lemma_lex_total(a, b);
                lemma_lex_transitive(c, a, b);
            }
        }
    }
    assert forall|a: Seq<u8>, b: Seq<u8>| #[trigger] le(a, b) || #[trigger] le(b, a) by {
        if lex_lt(b, a) && lex_lt(a, b) {
            lemma_lex_transitive(a, b, a);
            lemma_lex_irreflexive(a);
        }
    }
}

/// Every sequence of records has an ascending order.
pub proof fn lemma_sorted_records(rs: Seq<Seq<u8>>)
    ensures
        ascending(sorted_records(rs)),
        sorted_records(rs).to_multiset() == rs.to_multiset(),
{
    let le = |a: Seq<u8>, b: Seq<u8>| !lex_lt(b, a);
    lemma_lex_le_total_ordering();
    rs.lemma_sort_by_ensures(le);
    let w = rs.sort_by(le);
    assert(sorted_by(w, le));
    assert(ascending(w)) by {
        assert forall|i: int, j: int| 0 <= i < j < w.len() implies !lex_lt(#[trigger] w[j], #[trigger] w[i]) by {
            assert(le(w[i], w[j]));
        }
    }
    assert(w.to_multiset() == rs.to_multiset());
}

/// The summed length of the byte strings of `s`.
pub open spec fn total_len(s: Seq<Seq<u8>>) -> int
    decreases s.len(),
{
    if s.len() == 0 {
        0
    } else {
        total_len(s.drop_last()) + s.last().len()
    }
}

proof fn lemma_concat_len(s: Seq<Seq<u8>>)
    ensures
        concat(s).len() == total_len(s),
    decreases s.len(),
{
    if s.len() > 0 {
        lemma_concat_len(s.drop_last());
    }
}

proof fn lemma_total_len_remove(s: Seq<Seq<u8>>, j: int)
    requires
        0 <= j < s.len(),
    ensures
        total_len(s) == total_len(s.remove(j)) + s[j].len(),
    decreases s.len(),
{
    if j == s.len() - 1 {
        assert(s.remove(j) =~= s.drop_last());
    } else {
        let pre = s.drop_last();
        lemma_total_len_remove(pre, j);
        assert(s.remove(j).drop_last() =~= pre.remove(j));
        assert(s.remove(j).last() == s.last());
    }
}

proof fn lemma_total_len_permutation(a: Seq<Seq<u8>>, b: Seq<Seq<u8>>)
    requires
        a.to_multiset() == b.to_multiset(),
    ensures
        total_len(a) == total_len(b),
    decreases a.len(),
{
    assert(a.len() == a.to_multiset().len());
    assert(b.len() == b.to_multiset().len());
    if a.len() == 0 {
        assert(b =~= a);
    } else {
        let x = a.last();
        let pre = a.drop_last();
        assert(a =~= pre.push(x));
        assert(a.to_multiset() =~= pre.to_multiset().insert(x));
        assert(b.to_multiset().count(x) > 0);
        assert(b.contains(x));
        let j = choose|j: int| 0 <= j < b.len() && b[j] == x;
        assert(b.remove(j).to_multiset() =~= b.to_multiset().remove(x));
        assert(pre.to_multiset() =~= a.to_multiset().remove(x));
        lemma_total_len_permutation(pre, b.remove(j));
        lemma_total_len_remove(b, j);
    }
}

/// Adding an entry of known type to a listing lengthens the hashed bytes by
/// that entry's record, so they differ; read backwards, removing one
/// shortens them.
pub proof fn lemma_listing_entry_added(es: Seq<DirEntry>, e: DirEntry)
    requires
        e.kind is Some,
    ensures
        concat(sorted_records(listing_records(es.push(e)))).len() == concat(
            sorted_records(listing_records(es)),
        ).len() + e.name@.len() + 3,
        concat(sorted_records(listing_records(es.push(e)))) != concat(
            sorted_records(listing_records(es)),
        ),
{
    let rs = listing_records(es);
    let rs2 = listing_records(es.push(e));
    assert(es.push(e).drop_last() =~= es);
    let x = entry_record(e.name@, e.kind->0);
    assert(rs2 == rs.push(x));
    lemma_sorted_records(rs);
    lemma_sorted_records(rs2);
    lemma_total_len_permutation(sorted_records(rs), rs);
    lemma_total_len_permutation(sorted_records(rs2), rs2);
    lemma_concat_len(sorted_records(rs));
    lemma_concat_len(sorted_records(rs2));
    assert(rs2.drop_last() =~= rs);
}

} // verus!
