//! The trace store: NUL-delimited key/value records, held as a mapping from
//! key (kind byte followed by a path) to the fingerprint stored for it.
use vstd::prelude::*;
use crate::classify::Classifier;
use crate::order::{compare_bytes, lex_lt, lemma_lex_irreflexive, lemma_lex_total, lemma_lex_transitive};

verus! {

/// Why a byte buffer is not a trace.
#[derive(Debug, Clone, Copy, PartialEq, Eq, Structural)]
pub enum LoadError {
    /// The non-empty fields do not pair up into keys and values.
    OddFieldCount,
    /// A key starts with a byte other than `s`, `f` or `d`.
    UnknownKind,
}

/// Fields completed so far, and the field being read, after reading `s`.
pub open spec fn split_state(s: Seq<u8>) -> (Seq<Seq<u8>>, Seq<u8>)
    decreases s.len(),
{
    if s.len() == 0 {
        (Seq::empty(), Seq::empty())
    } else {
        let (done, cur) = split_state(s.drop_last());
        if s.last() == 0 {
            if cur.len() > 0 {
                (done.push(cur), Seq::empty())
            } else {
                (done, Seq::empty())
            }
        } else {
            (done, cur.push(s.last()))
        }
    }
}

/// The non-empty runs of non-NUL bytes of `s`, in order.
pub open spec fn fields(s: Seq<u8>) -> Seq<Seq<u8>> {
    let (done, cur) = split_state(s);
    if cur.len() > 0 {
        done.push(cur)
    } else {
        done
    }
}

/// Consecutive fields taken two by two as (key, value).
pub open spec fn pairs(f: Seq<Seq<u8>>) -> Seq<(Seq<u8>, Seq<u8>)>
    decreases f.len(),
{
    if f.len() < 2 {
        Seq::empty()
    } else {
        pairs(f.subrange(0, f.len() - 2)).push((f[f.len() - 2], f[f.len() - 1]))
    }
}

/// The mapping that the pairs give, a later pair overriding an earlier one.
pub open spec fn to_map(ps: Seq<(Seq<u8>, Seq<u8>)>) -> Map<Seq<u8>, Seq<u8>>
    decreases ps.len(),
{
    if ps.len() == 0 {
        Map::empty()
    } else {
        to_map(ps.drop_last()).insert(ps.last().0, ps.last().1)
    }
}

/// The kind bytes: `s` (symlink or other entity), `f` (file), `d` (directory).
pub open spec fn is_kind_byte(b: u8) -> bool {
    b == 's' as u8 || b == 'f' as u8 || b == 'd' as u8
}

pub open spec fn has_valid_kind(key: Seq<u8>) -> bool {
    key.len() > 0 && is_kind_byte(key[0])
}

/// What loading the bytes `b` yields.
pub open spec fn parse(b: Seq<u8>) -> Result<Map<Seq<u8>, Seq<u8>>, LoadError> {
    let f = fields(b);
    if f.len() % 2 == 1 {
        Err(LoadError::OddFieldCount)
    } else if exists|i: int| 0 <= i < pairs(f).len() && !has_valid_kind(#[trigger] pairs(f)[i].0) {
        Err(LoadError::UnknownKind)
    } else {
        Ok(to_map(pairs(f)))
    }
}

/// The bytes `NUL key NUL value` for each pair in turn.
pub open spec fn encode(es: Seq<(Seq<u8>, Seq<u8>)>) -> Seq<u8>
    decreases es.len(),
{
    if es.len() == 0 {
        Seq::empty()
    } else {
        encode(es.drop_last()) + seq![0u8] + es.last().0 + seq![0u8] + es.last().1
    }
}

pub open spec fn no_nul(s: Seq<u8>) -> bool {
    forall|i: int| 0 <= i < s.len() ==> s[i] != 0
}

/// Entries sorted strictly by key, each key and value a non-empty NUL-free
/// byte string and each key starting with a kind byte.
pub open spec fn well_formed_entries(es: Seq<(Seq<u8>, Seq<u8>)>) -> bool {
    &&& forall|i: int, j: int| 0 <= i < j < es.len() ==> lex_lt(#[trigger] es[i].0, #[trigger] es[j].0)
    &&& forall|i: int| 0 <= i < es.len() ==> {
        &&& has_valid_kind(#[trigger] es[i].0)
        &&& no_nul(es[i].0)
        &&& es[i].1.len() > 0
        &&& no_nul(es[i].1)
    }
}

pub open spec fn entry_views(v: Seq<(Vec<u8>, Vec<u8>)>) -> Seq<(Seq<u8>, Seq<u8>)> {
    v.map_values(|p: (Vec<u8>, Vec<u8>)| (p.0@, p.1@))
}

pub open spec fn byte_views(v: Seq<Vec<u8>>) -> Seq<Seq<u8>> {
    v.map_values(|b: Vec<u8>| b@)
}

proof fn lemma_to_map_unique(es: Seq<(Seq<u8>, Seq<u8>)>)
    requires
        forall|i: int, j: int| 0 <= i < j < es.len() ==> es[i].0 != es[j].0,
    ensures
        forall|k: Seq<u8>| to_map(es).contains_key(k) <==> exists|i: int| 0 <= i < es.len() && es[i].0 == k,
        forall|i: int| 0 <= i < es.len() ==> #[trigger] to_map(es)[es[i].0] == es[i].1,
    decreases es.len(),
{
    if es.len() > 0 {
        let pre = es.drop_last();
        lemma_to_map_unique(pre);
        assert(to_map(es) == to_map(pre).insert(es.last().0, es.last().1));
        assert(es[es.len() - 1].0 == es.last().0);
        assert forall|k: Seq<u8>| to_map(es).contains_key(k) <==> exists|i: int| 0 <= i < es.len() && es[i].0 == k by {
            if to_map(es).contains_key(k) && k != es.last().0 {
                assert(to_map(pre).contains_key(k));
                let i = choose|i: int| 0 <= i < pre.len() && pre[i].0 == k;
                assert(es[i].0 == k);
            }
            if exists|i: int| 0 <= i < es.len() && es[i].0 == k {
                let i = choose|i: int| 0 <= i < es.len() && es[i].0 == k;
                if i < pre.len() {
                    assert(pre[i].0 == k);
                }
            }
        }
        assert forall|i: int| 0 <= i < es.len() implies #[trigger] to_map(es)[es[i].0] == es[i].1 by {
            if i < pre.len() {
                assert(pre[i] == es[i]);
                assert(es[i].0 != es.last().0);
            }
        }
    }
}

proof fn lemma_sorted_unique(es: Seq<(Seq<u8>, Seq<u8>)>)
    requires
        well_formed_entries(es),
    ensures
        forall|i: int, j: int| 0 <= i < j < es.len() ==> es[i].0 != es[j].0,
{
    assert forall|i: int, j: int| 0 <= i < j < es.len() implies es[i].0 != es[j].0 by {
        assert(lex_lt(es[i].0, es[j].0));
        lemma_lex_irreflexive(es[i].0);
    }
}

/// Puts `(key, value)` in its place in the sorted entries, replacing the
/// value of an equal key.
fn insert_entry(items: &mut Vec<(Vec<u8>, Vec<u8>)>, key: Vec<u8>, value: Vec<u8>)
    requires
        well_formed_entries(entry_views(old(items)@)),
        has_valid_kind(key@),
        no_nul(key@),
        value@.len() > 0,
        no_nul(value@),
    ensures
        well_formed_entries(entry_views(final(items)@)),
        to_map(entry_views(final(items)@)) == to_map(entry_views(old(items)@)).insert(key@, value@),
{
    let ghost olds = entry_views(items@);
    let mut p: usize = 0;
    let mut c: i8 = -1;
    while p < items.len()
        invariant
            p <= items@.len(),
            items@ == old(items)@,
            olds == entry_views(items@),
            forall|j: int| 0 <= j < p ==> lex_lt(#[trigger] olds[j].0, key@),
        ensures
            p <= items@.len(),
            items@ == old(items)@,
            forall|j: int| 0 <= j < p ==> lex_lt(#[trigger] olds[j].0, key@),
            p < items@.len() ==> (c == 0 <==> olds[p as int].0 == key@),
            p < items@.len() ==> !lex_lt(olds[p as int].0, key@),
        decreases items.len() - p,
    {
        c = compare_bytes(items[p].0.as_slice(), key.as_slice());
        if c >= 0 {
            break;
        }
        p = p + 1;
    }
    proof {
        lemma_sorted_unique(olds);
        lemma_to_map_unique(olds);
    }
    if p < items.len() && c == 0 {
        let ghost kv = key@;
        let ghost vv = value@;
        items.set(p, (key, value));
        let ghost news = entry_views(items@);
        assert(news =~= olds.update(p as int, (kv, vv)));
        assert forall|i: int| 0 <= i < news.len() implies #[trigger] news[i].0 == olds[i].0 && (i != p ==> news[i] == olds[i]) by {}
        assert(well_formed_entries(news));
        proof {
            lemma_sorted_unique(news);
            lemma_to_map_unique(news);
            assert forall|k: Seq<u8>| #[trigger] to_map(news).contains_key(k) <==> to_map(olds).insert(kv, vv).contains_key(k) by {
                if exists|i: int| 0 <= i < olds.len() && olds[i].0 == k {
                    let i = choose|i: int| 0 <= i < olds.len() && olds[i].0 == k;
                    assert(news[i].0 == k);
                }
                if exists|i: int| 0 <= i < news.len() && news[i].0 == k {
                    let i = choose|i: int| 0 <= i < news.len() && news[i].0 == k;
                    assert(olds[i].0 == k);
                }
            }
            assert forall|k: Seq<u8>| #[trigger] to_map(news).contains_key(k) implies to_map(news)[k] == to_map(olds).insert(kv, vv)[k] by {
                let i = choose|i: int| 0 <= i < news.len() && news[i].0 == k;
                if i != p {
                    assert(olds[i] == news[i]);
                }
            }
            assert(to_map(news) =~= to_map(olds).insert(kv, vv));
        }
    } else {
        let ghost kv = key@;
        let ghost vv = value@;
        proof {
            if p < olds.len() {
                assert(kv != olds[p as int].0);
                lemma_lex_total(kv, olds[p as int].0);
            }
        }
        items.insert(p, (key, value));
        let ghost news = entry_views(items@);
        assert(news =~= olds.insert(p as int, (kv, vv)));
        assert forall|i: int, j: int| 0 <= i < j < news.len() implies lex_lt(#[trigger] news[i].0, #[trigger] news[j].0) by {
            if j == p {
                assert(news[i] == olds[i]);
            } else if i == p {
                assert(news[j] == olds[j - 1]);
                if j - 1 > p {
                    lemma_lex_transitive(kv, olds[p as int].0, olds[j - 1].0);
                }
            } else if i < p {
                if j < p {
                    assert(news[j] == olds[j]);
                } else {
                    assert(news[j] == olds[j - 1]);
                }
            } else {
                assert(news[i] == olds[i - 1]);
                assert(news[j] == olds[j - 1]);
            }
        }
        assert(well_formed_entries(news));
        proof {
            lemma_sorted_unique(news);
            lemma_to_map_unique(news);
            assert(news[p as int].0 == kv);
            assert forall|k: Seq<u8>| #[trigger] to_map(news).contains_key(k) <==> to_map(olds).insert(kv, vv).contains_key(k) by {
                if exists|i: int| 0 <= i < olds.len() && olds[i].0 == k {
                    let i = choose|i: int| 0 <= i < olds.len() && olds[i].0 == k;
                    if i < p {
                        assert(news[i].0 == k);
                    } else {
                        assert(news[i + 1].0 == k);
                    }
                }
                if exists|i: int| 0 <= i < news.len() && news[i].0 == k {
                    let i = choose|i: int| 0 <= i < news.len() && news[i].0 == k;
                    if i < p {
                        assert(olds[i].0 == k);
                    } else if i > p {
                        assert(olds[i - 1].0 == k);
                    }
                }
            }
            assert forall|k: Seq<u8>| #[trigger] to_map(news).contains_key(k) implies to_map(news)[k] == to_map(olds).insert(kv, vv)[k] by {
                let i = choose|i: int| 0 <= i < news.len() && news[i].0 == k;
                if i < p {
                    assert(olds[i] == news[i]);
                } else if i > p {
                    assert(olds[i - 1] == news[i]);
                }
            }
            assert(to_map(news) =~= to_map(olds).insert(kv, vv));
        }
    }
}

/// The recorded observations of a traced process, sorted by key with keys unique.
pub struct Trace {
    items: Vec<(Vec<u8>, Vec<u8>)>,
}

impl Trace {
    /// The entries in key order.
    pub closed spec fn entries(&self) -> Seq<(Seq<u8>, Seq<u8>)> {
        entry_views(self.items@)
    }

    pub closed spec fn wf(&self) -> bool {
        well_formed_entries(self.entries())
    }
}

impl View for Trace {
    type V = Map<Seq<u8>, Seq<u8>>;

    closed spec fn view(&self) -> Map<Seq<u8>, Seq<u8>> {
        to_map(self.entries())
    }
}

proof fn lemma_split_state_fields(s: Seq<u8>)
    ensures
        forall|i: int| 0 <= i < split_state(s).0.len() ==> #[trigger] split_state(s).0[i].len() > 0 && no_nul(split_state(s).0[i]),
        no_nul(split_state(s).1),
    decreases s.len(),
{
    if s.len() > 0 {
        lemma_split_state_fields(s.drop_last());
    }
}

proof fn lemma_fields_clean(s: Seq<u8>)
    ensures
        forall|i: int| 0 <= i < fields(s).len() ==> #[trigger] fields(s)[i].len() > 0 && no_nul(fields(s)[i]),
{
    lemma_split_state_fields(s);
}

proof fn lemma_pairs_index(f: Seq<Seq<u8>>)
    requires
        f.len() % 2 == 0,
    ensures
        pairs(f).len() == f.len() / 2,
        forall|i: int| 0 <= i < f.len() / 2 ==> #[trigger] pairs(f)[i] == (f[2 * i], f[2 * i + 1]),
    decreases f.len(),
{
    if f.len() >= 2 {
        let pre = f.subrange(0, f.len() - 2);
        lemma_pairs_index(pre);
        assert forall|i: int| 0 <= i < f.len() / 2 implies #[trigger] pairs(f)[i] == (f[2 * i], f[2 * i + 1]) by {
            if i < pre.len() / 2 {
                assert(pairs(pre)[i] == (pre[2 * i], pre[2 * i + 1]));
            }
        }
    }
}

proof fn lemma_pairs_step(f: Seq<Seq<u8>>, k: int)
    requires
        0 <= k,
        k + 2 <= f.len(),
    ensures
        pairs(f.subrange(0, k + 2)) == pairs(f.subrange(0, k)).push((f[k], f[k + 1])),
{
    let g = f.subrange(0, k + 2);
    assert(g.subrange(0, g.len() - 2) =~= f.subrange(0, k));
}

impl Trace {
    /// Reads a trace from its byte form: NUL-delimited fields, empty ones
    /// ignored, taken two by two as key and value; a later equal key
    /// overrides an earlier one.
    pub fn load(vec: Vec<u8>) -> (r: Result<Trace, LoadError>)
        ensures
            match r {
                Ok(t) => t.wf() && parse(vec@) == Ok::<Map<Seq<u8>, Seq<u8>>, LoadError>(t@),
                Err(e) => parse(vec@) == Err::<Map<Seq<u8>, Seq<u8>>, LoadError>(e),
            },
    {
        let mut done: Vec<Vec<u8>> = Vec::new();
        let mut cur: Vec<u8> = Vec::new();
        let mut i: usize = 0;
        while i < vec.len()
            invariant
                i <= vec@.len(),
                split_state(vec@.subrange(0, i as int)) == (byte_views(done@), cur@),
            decreases vec.len() - i,
        {
            let b = vec[i];
            assert(vec@.subrange(0, i + 1).drop_last() =~= vec@.subrange(0, i as int));
            if b == 0 {
                if cur.len() > 0 {
                    let ghost before = byte_views(done@);
                    done.push(cur);
                    assert(byte_views(done@) =~= before.push(done@.last()@));
                    cur = Vec::new();
                }
                assert(cur@ =~= Seq::<u8>::empty());
            } else {
                cur.push(b);
            }
            i = i + 1;
        }
        assert(vec@.subrange(0, vec@.len() as int) =~= vec@);
        if cur.len() > 0 {
            let ghost before = byte_views(done@);
            done.push(cur);
            assert(byte_views(done@) =~= before.push(done@.last()@));
        }
        let ghost f = fields(vec@);
        assert(byte_views(done@) == f);
        proof {
            lemma_fields_clean(vec@);
        }
        if done.len() % 2 == 1 {
            return Err(LoadError::OddFieldCount);
        }
        proof {
            lemma_pairs_index(f);
        }
        let mut items: Vec<(Vec<u8>, Vec<u8>)> = Vec::new();
        let mut k: usize = 0;
        while k < done.len()
            invariant
                k % 2 == 0,
                k <= done@.len(),
                done@.len() % 2 == 0,
                byte_views(done@) == f,
                f == fields(vec@),
                pairs(f).len() == f.len() / 2,
                forall|j: int| 0 <= j < f.len() / 2 ==> #[trigger] pairs(f)[j] == (f[2 * j], f[2 * j + 1]),
                forall|j: int| 0 <= j < f.len() ==> #[trigger] f[j].len() > 0 && no_nul(f[j]),
                forall|j: int| 0 <= j < k / 2 ==> has_valid_kind(#[trigger] pairs(f)[j].0),
                well_formed_entries(entry_views(items@)),
                to_map(entry_views(items@)) == to_map(pairs(f.subrange(0, k as int))),
            decreases done.len() - k,
        {
            assert(f[k as int] == done@[k as int]@);
            let kb = done[k][0];
            assert(pairs(f)[k as int / 2] == (f[k as int], f[k + 1]));
            if !(kb == 115u8 || kb == 102u8 || kb == 100u8) {
                assert(!has_valid_kind(pairs(f)[k as int / 2].0));
                return Err(LoadError::UnknownKind);
            }
            let key = done[k].clone();
            let value = done[k + 1].clone();
            assert(key@ =~= f[k as int]);
            assert(value@ =~= f[k + 1]);
            insert_entry(&mut items, key, value);
            proof {
                lemma_pairs_step(f, k as int);
                let ps = pairs(f.subrange(0, k as int));
                assert(ps.push((f[k as int], f[k + 1])).drop_last() =~= ps);
            }
            k = k + 2;
        }
        assert(f.subrange(0, f.len() as int) =~= f);
        Ok(Trace { items })
    }
}

/// Keys and values, one after the other, in entry order.
pub open spec fn flatten(es: Seq<(Seq<u8>, Seq<u8>)>) -> Seq<Seq<u8>>
    decreases es.len(),
{
    if es.len() == 0 {
        Seq::empty()
    } else {
        flatten(es.drop_last()).push(es.last().0).push(es.last().1)
    }
}

proof fn lemma_split_state_extend(s: Seq<u8>, t: Seq<u8>)
    requires
        no_nul(t),
    ensures
        split_state(s + t) == (split_state(s).0, split_state(s).1 + t),
    decreases t.len(),
{
    if t.len() == 0 {
        assert(s + t =~= s);
        assert(split_state(s).1 + t =~= split_state(s).1);
    } else {
        let t2 = t.drop_last();
        lemma_split_state_extend(s, t2);
        assert((s + t).drop_last() =~= s + t2);
        assert((split_state(s).1 + t2).push(t.last()) =~= split_state(s).1 + t);
    }
}

proof fn lemma_encode_split_state(es: Seq<(Seq<u8>, Seq<u8>)>)
    requires
        well_formed_entries(es),
    ensures
        es.len() == 0 ==> split_state(encode(es)) == (Seq::<Seq<u8>>::empty(), Seq::<u8>::empty()),
        es.len() > 0 ==> split_state(encode(es)) == (flatten(es).drop_last(), es.last().1),
    decreases es.len(),
{
    if es.len() > 0 {
        let pre = es.drop_last();
        assert(well_formed_entries(pre)) by {
            assert forall|i: int| 0 <= i < pre.len() implies pre[i] == es[i] by {}
        }
        lemma_encode_split_state(pre);
        let (k, v) = es.last();
        assert(es[es.len() - 1] == es.last());
        let a = encode(pre) + seq![0u8];
        assert(a.drop_last() =~= encode(pre));
        assert(split_state(a).0 == flatten(pre)) by {
            if pre.len() > 0 {
                assert(flatten(pre).drop_last().push(pre.last().1) =~= flatten(pre));
            }
        }
        lemma_split_state_extend(a, k);
        let b = a + k + seq![0u8];
        assert(b.drop_last() =~= a + k);
        assert(split_state(a).1 + k =~= k);
        lemma_split_state_extend(b, v);
        assert(split_state(b).1 + v =~= v);
        assert(encode(es) =~= b + v);
        assert(flatten(es).drop_last() =~= flatten(pre).push(k));
    }
}

proof fn lemma_pairs_flatten(es: Seq<(Seq<u8>, Seq<u8>)>)
    ensures
        pairs(flatten(es)) == es,
        flatten(es).len() == 2 * es.len(),
    decreases es.len(),
{
    if es.len() > 0 {
        lemma_pairs_flatten(es.drop_last());
        let f = flatten(es);
        assert(f.subrange(0, f.len() - 2) =~= flatten(es.drop_last()));
        assert(es.drop_last().push(es.last()) =~= es);
    }
}

/// Loading the serialized form of a trace gives back the same mapping.
pub proof fn lemma_load_serialize(t: &Trace)
    requires
        t.wf(),
    ensures
        parse(encode(t.entries())) == Ok::<Map<Seq<u8>, Seq<u8>>, LoadError>(t@),
{
    let es = t.entries();
    lemma_encode_split_state(es);
    lemma_pairs_flatten(es);
    assert(fields(encode(es)) == flatten(es)) by {
        if es.len() > 0 {
            assert(flatten(es).drop_last().push(es.last().1) =~= flatten(es));
            assert(es[es.len() - 1] == es.last());
        }
    }
    assert(!exists|i: int| 0 <= i < es.len() && !has_valid_kind(#[trigger] es[i].0));
}

fn append_bytes(out: &mut Vec<u8>, b: &[u8])
    ensures
        final(out)@ == old(out)@ + b@,
{
    let mut i: usize = 0;
    while i < b.len()
        invariant
            i <= b@.len(),
            out@ == old(out)@ + b@.subrange(0, i as int),
        decreases b.len() - i,
    {
        out.push(b[i]);
        i = i + 1;
        assert(out@ =~= old(out)@ + b@.subrange(0, i as int));
    }
    assert(b@.subrange(0, b@.len() as int) =~= b@);
}

impl Trace {
    /// The byte form of the trace: `NUL key NUL value` for each entry, in
    /// key order.
    pub fn serialize(&self) -> (r: Vec<u8>)
        ensures
            r@ == encode(self.entries()),
    {
        let mut result: Vec<u8> = Vec::new();
        let mut i: usize = 0;
        while i < self.items.len()
            invariant
                i <= self.items@.len(),
                result@ == encode(self.entries().subrange(0, i as int)),
            decreases self.items.len() - i,
        {
            let ghost pre = self.entries().subrange(0, i as int);
            result.push(0);
            append_bytes(&mut result, self.items[i].0.as_slice());
            result.push(0);
            append_bytes(&mut result, self.items[i].1.as_slice());
            i = i + 1;
            let ghost cur = self.entries().subrange(0, i as int);
            assert(cur.drop_last() =~= pre);
            assert(result@ =~= encode(cur));
        }
        assert(self.entries().subrange(0, i as int) =~= self.entries());
        result
    }
}

/// How a recorded path is observed.
#[derive(Debug, Clone, Copy, PartialEq, Eq, Structural)]
pub enum Kind {
    /// `s`: its own metadata, without following a symlink.
    Symlink,
    /// `f`: its content.
    File,
    /// `d`: its listing.
    Directory,
}

pub open spec fn kind_of(b: u8) -> Kind {
    if b == 115u8 {
        Kind::Symlink
    } else if b == 102u8 {
        Kind::File
    } else {
        Kind::Directory
    }
}

/// What the scan for changes needs next.
pub enum Step {
    /// The current fingerprint of the entry at `index`, whose path is
    /// observed as `kind` says.
    Fingerprint { index: usize, kind: Kind, path: Vec<u8> },
    /// The entry at `index` no longer matches: something changed.
    Changed { index: usize },
    /// Every entry that must be checked matched.
    Unchanged,
}

/// The first entry at or after `from` whose key the rules check, or the
/// number of entries when there is none.
pub open spec fn first_checked(es: Seq<(Seq<u8>, Seq<u8>)>, rules: Classifier, from: int) -> int
    decreases es.len() - from,
{
    if from < 0 || from >= es.len() {
        es.len() as int
    } else if rules.checks(es[from].0) {
        from
    } else {
        first_checked(es, rules, from + 1)
    }
}

proof fn lemma_first_checked(es: Seq<(Seq<u8>, Seq<u8>)>, rules: Classifier, from: int)
    requires
        0 <= from <= es.len(),
    ensures
        from <= first_checked(es, rules, from) <= es.len(),
        first_checked(es, rules, from) < es.len() ==> rules.checks(es[first_checked(es, rules, from)].0),
        forall|j: int| from <= j < first_checked(es, rules, from) ==> !rules.checks(#[trigger] es[j].0),
    decreases es.len() - from,
{
    if from < es.len() && !rules.checks(es[from].0) {
        lemma_first_checked(es, rules, from + 1);
    }
}

/// An entry whose key the rules skip is never asked to be fingerprinted,
/// whatever its stored value.
pub proof fn lemma_skipped_never_fetched(t: &Trace, rules: Classifier, from: int, k: int)
    requires
        0 <= from <= k < t.entries().len(),
        !rules.checks(t.entries()[k].0),
    ensures
        first_checked(t.entries(), rules, from) != k,
{
    lemma_first_checked(t.entries(), rules, from);
}

impl Trace {
    /// The number of entries.
    pub fn len(&self) -> (r: usize)
        ensures
            r == self.entries().len(),
    {
        self.items.len()
    }

    /// The fingerprint stored for the entry at `index`.
    pub fn stored_fingerprint(&self, index: usize) -> (r: &Vec<u8>)
        requires
            index < self.entries().len(),
        ensures
            r@ == self.entries()[index as int].1,
    {
        &self.items[index].1
    }

    /// One step of the scan for changes, in key order. `last` is `None` to
    /// start, else the index that the previous step asked for and the
    /// fingerprint now observed for it. A mismatch ends the scan at once;
    /// otherwise the next entry that the rules check is asked for.
    pub fn check_for_changes(&self, rules: &Classifier, last: Option<(usize, Vec<u8>)>) -> (r: Step)
        requires
            self.wf(),
            last matches Some((i, _)) ==> i < self.entries().len(),
        ensures
            ({
                let es = self.entries();
                let from: int = match last {
                    None => 0,
                    Some((i, _)) => i + 1,
                };
                let next = first_checked(es, *rules, from);
                if last matches Some((i, fp)) && fp@ != es[i as int].1 {
                    r == Step::Changed { index: (last->0).0 }
                } else if next == es.len() {
                    r is Unchanged
                } else {
                    r matches Step::Fingerprint { index, kind, path } && index == next && kind
                        == kind_of(es[next].0[0]) && path@ == es[next].0.drop_first()
                }
            }),
    {
        let n = self.items.len();
        assert(self.entries().len() == n);
        assert(well_formed_entries(self.entries()));
        let mut i: usize = 0;
        if let Some((at, fp)) = last {
            if compare_bytes(fp.as_slice(), self.items[at].1.as_slice()) != 0 {
                return Step::Changed { index: at };
            }
            assert(at < n);
            assert(self.entries()[at as int].1 == self.items@[at as int].1@);
            i = at + 1;
        }
        let ghost from = i as int;
        proof {
            lemma_first_checked(self.entries(), *rules, from);
        }
        while i < self.items.len()
            invariant
                0 <= from <= i <= self.items@.len(),
                self.entries().len() == self.items@.len(),
                well_formed_entries(self.entries()),
                from == match last {
                    None => 0,
                    Some((k, _)) => k + 1,
                },
                last matches Some((k, fp)) ==> k < self.entries().len() && fp@ == self.entries()[k as int].1,
                forall|j: int| from <= j < i ==> !rules.checks(#[trigger] self.entries()[j].0),
                first_checked(self.entries(), *rules, from) >= i,
            decreases self.items.len() - i,
        {
            let key = &self.items[i].0;
            assert(key@ == self.entries()[i as int].0);
            if rules.must_check(key.as_slice()) {
                proof {
                    lemma_first_checked_at(self.entries(), *rules, from, i as int);
                }
                assert(has_valid_kind(self.entries()[i as int].0));
                let b = key[0];
                let kind = if b == 115u8 {
                    Kind::Symlink
                } else if b == 102u8 {
                    Kind::File
                } else {
                    Kind::Directory
                };
                let mut path: Vec<u8> = Vec::new();
                let mut j: usize = 1;
                while j < key.len()
                    invariant
                        1 <= j <= key@.len(),
                        path@ == key@.subrange(1, j as int),
                    decreases key.len() - j,
                {
                    path.push(key[j]);
                    j = j + 1;
                    assert(path@ =~= key@.subrange(1, j as int));
                }
                assert(path@ =~= key@.drop_first());
                assert(kind == kind_of(self.entries()[i as int].0[0]));
                return Step::Fingerprint { index: i, kind, path };
            }
            proof {
                lemma_first_checked(self.entries(), *rules, from);
            }
            i = i + 1;
        }
        proof {
            lemma_first_checked_at(self.entries(), *rules, from, i as int);
        }
        Step::Unchanged
    }
}

proof fn lemma_first_checked_at(es: Seq<(Seq<u8>, Seq<u8>)>, rules: Classifier, from: int, i: int)
    requires
        0 <= from <= i <= es.len(),
        forall|j: int| from <= j < i ==> !rules.checks(#[trigger] es[j].0),
        i < es.len() ==> rules.checks(es[i].0),
    ensures
        first_checked(es, rules, from) == i,
    decreases i - from,
{
    if from < i {
        lemma_first_checked_at(es, rules, from + 1, i);
    }
}

/// The entries of a trace are its mapping's pairs, each key once, in
/// ascending key order.
pub proof fn lemma_entries_sorted(t: &Trace)
    requires
        t.wf(),
    ensures
        forall|i: int, j: int| 0 <= i < j < t.entries().len() ==> lex_lt(#[trigger] t.entries()[i].0, #[trigger] t.entries()[j].0),
        forall|k: Seq<u8>| t@.contains_key(k) <==> exists|i: int| 0 <= i < t.entries().len() && t.entries()[i].0 == k,
        forall|i: int| 0 <= i < t.entries().len() ==> #[trigger] t@[t.entries()[i].0] == t.entries()[i].1,
{
    lemma_sorted_unique(t.entries());
    lemma_to_map_unique(t.entries());
}

/// Whether a whole scan from entry `from` on reports a change, when
/// fingerprinting key `k` now gives `now(k)`: some entry that the rules
/// check, at or after `from`, no longer matches.
pub open spec fn scan_changed(
    es: Seq<(Seq<u8>, Seq<u8>)>,
    rules: Classifier,
    now: spec_fn(Seq<u8>) -> Seq<u8>,
    from: int,
) -> bool
    decreases es.len() - from,
{
    if from < 0 || from >= es.len() {
        false
    } else if rules.checks(es[from].0) && now(es[from].0) != es[from].1 {
        true
    } else {
        scan_changed(es, rules, now, from + 1)
    }
}

proof fn lemma_scan_changed_exists(
    es: Seq<(Seq<u8>, Seq<u8>)>,
    rules: Classifier,
    now: spec_fn(Seq<u8>) -> Seq<u8>,
    from: int,
)
    requires
        0 <= from <= es.len(),
    ensures
        scan_changed(es, rules, now, from) <==> exists|i: int|
            from <= i < es.len() && rules.checks(#[trigger] es[i].0) && now(es[i].0) != es[i].1,
    decreases es.len() - from,
{
    if from < es.len() {
        lemma_scan_changed_exists(es, rules, now, from + 1);
        if exists|i: int| from <= i < es.len() && rules.checks(#[trigger] es[i].0) && now(es[i].0) != es[i].1 {
            let i = choose|i: int| from <= i < es.len() && rules.checks(#[trigger] es[i].0) && now(es[i].0) != es[i].1;
            if i > from && !(rules.checks(es[from].0) && now(es[from].0) != es[from].1) {
                assert(scan_changed(es, rules, now, from + 1));
            }
        }
    }
}

/// One step of the scan: the scan from `from` asks for the first checked
/// entry, reports a change if it differs, and otherwise goes on after it.
/// This is what running `check_for_changes` step by step computes.
pub proof fn lemma_scan_step(
    es: Seq<(Seq<u8>, Seq<u8>)>,
    rules: Classifier,
    now: spec_fn(Seq<u8>) -> Seq<u8>,
    from: int,
)
    requires
        0 <= from <= es.len(),
    ensures
        ({
            let j = first_checked(es, rules, from);
            scan_changed(es, rules, now, from) == (j < es.len() && (now(es[j].0) != es[j].1
                || scan_changed(es, rules, now, j + 1)))
        }),
    decreases es.len() - from,
{
    if from < es.len() && !rules.checks(es[from].0) {
        lemma_scan_step(es, rules, now, from + 1);
    }
}

/// A scan of a trace reports a change exactly when some key that the rules
/// check has a current fingerprint other than the stored one.
pub proof fn lemma_scan_reports_stale(t: &Trace, rules: Classifier, now: spec_fn(Seq<u8>) -> Seq<u8>)
    requires
        t.wf(),
    ensures
        scan_changed(t.entries(), rules, now, 0) <==> exists|k: Seq<u8>|
            t@.contains_key(k) && rules.checks(k) && now(k) != t@[k],
{
    let es = t.entries();
    lemma_entries_sorted(t);
    lemma_scan_changed_exists(es, rules, now, 0);
    if scan_changed(es, rules, now, 0) {
        let i = choose|i: int| 0 <= i < es.len() && rules.checks(#[trigger] es[i].0) && now(es[i].0) != es[i].1;
        assert(t@[es[i].0] == es[i].1);
    }
    if exists|k: Seq<u8>| t@.contains_key(k) && rules.checks(k) && now(k) != t@[k] {
        let k = choose|k: Seq<u8>| t@.contains_key(k) && rules.checks(k) && now(k) != t@[k];
        let i = choose|i: int| 0 <= i < es.len() && es[i].0 == k;
        assert(t@[es[i].0] == es[i].1);
    }
}

/// Adding entries that the rules skip, with any stored value, never
/// changes what a scan reports.
pub proof fn lemma_skipped_entries_irrelevant(
    t: &Trace,
    t2: &Trace,
    rules: Classifier,
    now: spec_fn(Seq<u8>) -> Seq<u8>,
)
    requires
        t.wf(),
        t2.wf(),
        forall|k: Seq<u8>| #[trigger] t@.contains_key(k) ==> t2@.contains_key(k) && t2@[k] == t@[k],
        forall|k: Seq<u8>| #[trigger] t2@.contains_key(k) && !t@.contains_key(k) ==> !rules.checks(k),
    ensures
        scan_changed(t2.entries(), rules, now, 0) == scan_changed(t.entries(), rules, now, 0),
{
    lemma_scan_reports_stale(t, rules, now);
    lemma_scan_reports_stale(t2, rules, now);
    if exists|k: Seq<u8>| t2@.contains_key(k) && rules.checks(k) && now(k) != t2@[k] {
        let k = choose|k: Seq<u8>| t2@.contains_key(k) && rules.checks(k) && now(k) != t2@[k];
        assert(t@.contains_key(k));
    }
    if exists|k: Seq<u8>| t@.contains_key(k) && rules.checks(k) && now(k) != t@[k] {
        let k = choose|k: Seq<u8>| t@.contains_key(k) && rules.checks(k) && now(k) != t@[k];
        assert(t2@.contains_key(k));
    }
}

/// When the entry at `k` is checked and stale, the scan reports a change
/// whatever the entries after it hold or give now.
pub proof fn lemma_first_stale_decides(
    t: &Trace,
    rules: Classifier,
    now: spec_fn(Seq<u8>) -> Seq<u8>,
    k: int,
)
    requires
        t.wf(),
        0 <= k < t.entries().len(),
        rules.checks(t.entries()[k].0),
        now(t.entries()[k].0) != t.entries()[k].1,
    ensures
        scan_changed(t.entries(), rules, now, 0),
{
    lemma_scan_changed_exists(t.entries(), rules, now, 0);
}

} // verus!
