//! The persisted form of a [`ScopedCache`] and its validating decoder.
//!
//! The file holds, as 64-bit little-endian values, the number of scopes,
//! then for each scope its key, its element count, and its identifiers
//! oldest first.  Only the sequences are persisted; each scope's hash index
//! is rebuilt while loading.  The decoder accepts exactly the well-formed
//! encodings: anything truncated, oversized, repeated or left over is
//! reported as a load failure, and the caller starts from an empty cache.

use vstd::prelude::*;
use std::collections::HashSet;
use crate::dedup::effective_cap;
use crate::dedup::lemma_push_to_set;
use crate::dedup::lemma_push_no_duplicates;
use crate::scoped::ScopedCache;
use crate::scoped::cache_contains;

verus! {

broadcast use vstd::std_specs::hash::group_hash_axioms;

/// Why an operation against the persisted file failed.  Loading fails on
/// bytes that are not a well-formed encoding; saving itself cannot fail
/// here — the writer reports `SaveFailure` when the file cannot be written.
#[derive(Clone, Copy, PartialEq, Eq, Structural, Debug)]
pub enum CacheError {
    LoadFailure,
    SaveFailure,
}

/// The eight little-endian bytes of a 64-bit value.
pub open spec fn le_bytes(x: u64) -> Seq<u8> {
    seq![
        (x & 0xff) as u8,
        ((x >> 8) & 0xff) as u8,
        ((x >> 16) & 0xff) as u8,
        ((x >> 24) & 0xff) as u8,
        ((x >> 32) & 0xff) as u8,
        ((x >> 40) & 0xff) as u8,
        ((x >> 48) & 0xff) as u8,
        ((x >> 56) & 0xff) as u8,
    ]
}

/// The 64-bit value that eight little-endian bytes stand for.
pub open spec fn le_value(b: Seq<u8>) -> u64 {
    ((b[0] as u64) | ((b[1] as u64) << 8) | ((b[2] as u64) << 16) | ((b[3] as u64) << 24) | (
    (b[4] as u64) << 32) | ((b[5] as u64) << 40) | ((b[6] as u64) << 48) | ((b[7] as u64) << 56))
}

/// Reading back the bytes of a 64-bit value gives the value.
pub proof fn lemma_le_round_trip(x: u64)
    ensures
        le_value(le_bytes(x)) == x,
{
    let b = le_bytes(x);
    assert(b[0] == (x & 0xff) as u8);
    assert(b[1] == ((x >> 8) & 0xff) as u8);
    assert(b[2] == ((x >> 16) & 0xff) as u8);
    assert(b[3] == ((x >> 24) & 0xff) as u8);
    assert(b[4] == ((x >> 32) & 0xff) as u8);
    assert(b[5] == ((x >> 40) & 0xff) as u8);
    assert(b[6] == ((x >> 48) & 0xff) as u8);
    assert(b[7] == ((x >> 56) & 0xff) as u8);
    assert((((x & 0xff) as u8 as u64) | (((x >> 8) & 0xff) as u8 as u64) << 8 | (((x >> 16)
        & 0xff) as u8 as u64) << 16 | (((x >> 24) & 0xff) as u8 as u64) << 24 | (((x >> 32)
        & 0xff) as u8 as u64) << 32 | (((x >> 40) & 0xff) as u8 as u64) << 40 | (((x >> 48)
        & 0xff) as u8 as u64) << 48 | (((x >> 56) & 0xff) as u8 as u64) << 56) == x)
        by (bit_vector);
}

/// The bytes of one scope's identifiers, oldest first.
pub open spec fn encode_ids(ids: Seq<u64>) -> Seq<u8>
    decreases ids.len(),
{
    if ids.len() == 0 {
        Seq::<u8>::empty()
    } else {
        le_bytes(ids[0]) + encode_ids(ids.drop_first())
    }
}

/// The bytes of one persisted scope: key, element count, identifiers.
pub open spec fn encode_entry(e: (u64, Seq<u64>)) -> Seq<u8> {
    le_bytes(e.0) + le_bytes(e.1.len() as u64) + encode_ids(e.1)
}

/// The bytes of a run of persisted scopes, in order.
pub open spec fn encode_entries(es: Seq<(u64, Seq<u64>)>) -> Seq<u8>
    decreases es.len(),
{
    if es.len() == 0 {
        Seq::<u8>::empty()
    } else {
        encode_entry(es[0]) + encode_entries(es.drop_first())
    }
}

/// The whole file: the number of scopes, then each scope's bytes.
pub open spec fn encode_model(es: Seq<(u64, Seq<u64>)>) -> Seq<u8> {
    le_bytes(es.len() as u64) + encode_entries(es)
}

/// Whether `es` already holds an entry for scope key `k`.
pub open spec fn has_key(es: Seq<(u64, Seq<u64>)>, k: u64) -> bool {
    exists|i: int| 0 <= i < es.len() && (#[trigger] es[i]).0 == k
}

/// The `m` identifiers behind the sixteen header bytes of one scope's
/// encoding.
pub open spec fn ids_at(b: Seq<u8>, m: nat) -> Seq<u64> {
    Seq::new(m, |i: int| le_value(b.subrange(16 + 8 * i, 24 + 8 * i)))
}

/// One scope parsed from the front of `b`: its key, a count between one
/// and the capacity bound, and that many identifiers without repetition.
/// Yields the entry and the bytes that follow it.
pub open spec fn parse_entry(b: Seq<u8>, cap: nat) -> Option<((u64, Seq<u64>), Seq<u8>)> {
    if b.len() < 16 {
        None
    } else {
        let key = le_value(b.subrange(0, 8));
        let m = le_value(b.subrange(8, 16)) as nat;
        if m == 0 || m > effective_cap(cap) || b.len() < 16 + 8 * m {
            None
        } else {
            if ids_at(b, m).no_duplicates() {
                Some(((key, ids_at(b, m)), b.subrange(16 + 8 * (m as int), b.len() as int)))
            } else {
                None
            }
        }
    }
}

/// `n` scopes parsed in order after the already accepted `acc`, rejecting
/// a repeated scope key and anything left unconsumed at the end.
pub open spec fn parse_entries(b: Seq<u8>, n: nat, acc: Seq<(u64, Seq<u64>)>, cap: nat) -> Option<
    Seq<(u64, Seq<u64>)>,
>
    decreases n,
{
    if n == 0 {
        if b.len() == 0 {
            Some(acc)
        } else {
            None
        }
    } else {
        match parse_entry(b, cap) {
            None => None,
            Some(er) => if has_key(acc, er.0.0) {
                None
            } else {
                parse_entries(er.1, (n - 1) as nat, acc.push(er.0), cap)
            },
        }
    }
}

/// What a whole persisted file means under scope capacity `cap`, if
/// anything.
pub open spec fn parse_model(b: Seq<u8>, cap: nat) -> Option<Seq<(u64, Seq<u64>)>> {
    if b.len() < 8 {
        None
    } else {
        parse_entries(
            b.subrange(8, b.len() as int),
            le_value(b.subrange(0, 8)) as nat,
            Seq::<(u64, Seq<u64>)>::empty(),
            cap,
        )
    }
}

/// Appends the eight little-endian bytes of `x`.
fn write_u64(out: &mut Vec<u8>, x: u64)
    ensures
        final(out)@ == old(out)@ + le_bytes(x),
{
    proof {
        assert(x & 0xff < 256 && (x >> 8) & 0xff < 256 && (x >> 16) & 0xff < 256 && (x >> 24)
            & 0xff < 256 && (x >> 32) & 0xff < 256 && (x >> 40) & 0xff < 256 && (x >> 48) & 0xff
            < 256 && (x >> 56) & 0xff < 256) by (bit_vector);
    }
    out.push((x & 0xff) as u8);
    out.push(((x >> 8) & 0xff) as u8);
    out.push(((x >> 16) & 0xff) as u8);
    out.push(((x >> 24) & 0xff) as u8);
    out.push(((x >> 32) & 0xff) as u8);
    out.push(((x >> 40) & 0xff) as u8);
    out.push(((x >> 48) & 0xff) as u8);
    out.push(((x >> 56) & 0xff) as u8);
    proof {
        assert(out@ =~= old(out)@ + le_bytes(x));
    }
}

/// Reads the 64-bit little-endian value at `offset`.
fn read_u64(b: &Vec<u8>, offset: usize) -> (x: u64)
    requires
        offset + 8 <= b@.len(),
    ensures
        x == le_value(b@.subrange(offset as int, offset as int + 8)),
{
    let total_len = b.len();
    let x = (b[offset] as u64) | ((b[offset + 1] as u64) << 8) | ((b[offset + 2] as u64) << 16) | (
    (b[offset + 3] as u64) << 24) | ((b[offset + 4] as u64) << 32) | ((b[offset + 5] as u64) << 40)
        | ((b[offset + 6] as u64) << 48) | ((b[offset + 7] as u64) << 56);
    proof {
        let s = b@.subrange(offset as int, offset as int + 8);
        assert(s[0] == b@[offset as int]);
        assert(s[1] == b@[offset as int + 1]);
        assert(s[2] == b@[offset as int + 2]);
        assert(s[3] == b@[offset as int + 3]);
        assert(s[4] == b@[offset as int + 4]);
        assert(s[5] == b@[offset as int + 5]);
        assert(s[6] == b@[offset as int + 6]);
        assert(s[7] == b@[offset as int + 7]);
    }
    x
}

/// A run of entry bytes grows at the back entry by entry.
proof fn lemma_encode_entries_push(es: Seq<(u64, Seq<u64>)>, e: (u64, Seq<u64>))
    ensures
        encode_entries(es.push(e)) == encode_entries(es) + encode_entry(e),
    decreases es.len(),
{
    let p = es.push(e);
    assert(p.len() == es.len() + 1);
    if es.len() == 0 {
        assert(p[0] == e);
        assert(p.drop_first() =~= Seq::<(u64, Seq<u64>)>::empty());
        assert(encode_entries(p) == encode_entry(p[0]) + encode_entries(p.drop_first()));
        assert(encode_entries(p.drop_first()) == Seq::<u8>::empty());
        assert(encode_entries(es) == Seq::<u8>::empty());
        assert(encode_entries(p) =~= encode_entries(es) + encode_entry(e));
    } else {
        assert(p[0] == es[0]);
        assert(p.drop_first() =~= es.drop_first().push(e));
        assert(encode_entries(p) == encode_entry(es[0]) + encode_entries(es.drop_first().push(e)));
        lemma_encode_entries_push(es.drop_first(), e);
        assert(encode_entries(es.drop_first().push(e)) == encode_entries(es.drop_first())
            + encode_entry(e));
        assert(encode_entries(es) == encode_entry(es[0]) + encode_entries(es.drop_first()));
        assert(encode_entries(p) =~= encode_entries(es) + encode_entry(e));
    }
}

/// A run of identifier bytes grows at the back identifier by identifier.
proof fn lemma_encode_ids_push(ids: Seq<u64>, x: u64)
    ensures
        encode_ids(ids.push(x)) == encode_ids(ids) + le_bytes(x),
    decreases ids.len(),
{
    let p = ids.push(x);
    assert(p.len() == ids.len() + 1);
    if ids.len() == 0 {
        assert(p[0] == x);
        assert(p.drop_first() =~= Seq::<u64>::empty());
        assert(encode_ids(p) == le_bytes(p[0]) + encode_ids(p.drop_first()));
        assert(encode_ids(p.drop_first()) == Seq::<u8>::empty());
        assert(encode_ids(ids) == Seq::<u8>::empty());
        assert(encode_ids(p) =~= encode_ids(ids) + le_bytes(x));
    } else {
        assert(p[0] == ids[0]);
        assert(p.drop_first() =~= ids.drop_first().push(x));
        assert(encode_ids(p) == le_bytes(ids[0]) + encode_ids(ids.drop_first().push(x)));
        lemma_encode_ids_push(ids.drop_first(), x);
        assert(encode_ids(ids.drop_first().push(x)) == encode_ids(ids.drop_first()) + le_bytes(x));
        assert(encode_ids(ids) == le_bytes(ids[0]) + encode_ids(ids.drop_first()));
        assert(encode_ids(p) =~= encode_ids(ids) + le_bytes(x));
    }
}

/// A run of identifier bytes is eight bytes per identifier.
proof fn lemma_encode_ids_len(ids: Seq<u64>)
    ensures
        encode_ids(ids).len() == 8 * ids.len(),
    decreases ids.len(),
{
    if ids.len() > 0 {
        lemma_encode_ids_len(ids.drop_first());
    }
}

/// The bytes of the `i`-th identifier sit eight-aligned in the run.
proof fn lemma_encode_ids_slice(ids: Seq<u64>, i: int)
    requires
        0 <= i < ids.len(),
    ensures
        encode_ids(ids).len() == 8 * ids.len(),
        encode_ids(ids).subrange(8 * i, 8 * i + 8) == le_bytes(ids[i]),
    decreases i,
{
    lemma_encode_ids_len(ids);
    assert(encode_ids(ids) == le_bytes(ids[0]) + encode_ids(ids.drop_first()));
    lemma_encode_ids_len(ids.drop_first());
    if i == 0 {
        assert(encode_ids(ids).subrange(0, 8) =~= le_bytes(ids[0]));
    } else {
        lemma_encode_ids_slice(ids.drop_first(), i - 1);
        assert(encode_ids(ids).subrange(8 * i, 8 * i + 8) =~= encode_ids(
            ids.drop_first(),
        ).subrange(8 * (i - 1), 8 * (i - 1) + 8));
        assert(ids.drop_first()[i - 1] == ids[i]);
    }
}

/// Parsing one encoded scope from the front of a longer buffer yields the
/// scope and leaves exactly the bytes behind it.
proof fn lemma_parse_encode_entry(e: (u64, Seq<u64>), tail: Seq<u8>, cap: nat)
    requires
        e.1.no_duplicates(),
        0 < e.1.len() <= effective_cap(cap),
        e.1.len() <= u64::MAX,
    ensures
        parse_entry(encode_entry(e) + tail, cap) == Some((e, tail)),
{
    let b = encode_entry(e) + tail;
    let m = e.1.len() as int;
    lemma_encode_ids_len(e.1);
    assert(encode_entry(e).len() == 16 + 8 * m);
    assert(b.subrange(0, 8) =~= le_bytes(e.0));
    lemma_le_round_trip(e.0);
    assert(b.subrange(8, 16) =~= le_bytes(e.1.len() as u64));
    lemma_le_round_trip(e.1.len() as u64);
    assert(le_value(b.subrange(8, 16)) as nat == e.1.len());
    assert forall|q: int| 0 <= q < m implies ids_at(b, e.1.len())[q] == e.1[q] by {
        lemma_encode_ids_slice(e.1, q);
        assert(b.subrange(16 + 8 * q, 24 + 8 * q) =~= encode_ids(e.1).subrange(8 * q, 8 * q + 8));
        lemma_le_round_trip(e.1[q]);
    }
    assert(ids_at(b, e.1.len()) =~= e.1);
    assert(b.subrange(16 + 8 * m, b.len() as int) =~= tail);
}

/// Parsing the encoding of a run of scopes accepts them all, in order,
/// provided their keys repeat neither each other nor the already accepted
/// ones.
proof fn lemma_parse_encode_entries(es: Seq<(u64, Seq<u64>)>, acc: Seq<(u64, Seq<u64>)>, cap: nat)
    requires
        forall|i: int|
            0 <= i < es.len() ==> (#[trigger] es[i]).1.no_duplicates() && 0 < es[i].1.len()
                <= effective_cap(cap) && es[i].1.len() <= u64::MAX,
        forall|i: int, j: int|
            0 <= i < j < es.len() ==> (#[trigger] es[i]).0 != (#[trigger] es[j]).0,
        forall|i: int| 0 <= i < es.len() ==> !has_key(acc, (#[trigger] es[i]).0),
    ensures
        parse_entries(encode_entries(es), es.len(), acc, cap) == Some(acc + es),
    decreases es.len(),
{
    if es.len() == 0 {
        assert(encode_entries(es).len() == 0);
        assert(acc + es =~= acc);
    } else {
        let e = es[0];
        let rest_es = es.drop_first();
        assert(encode_entries(es) == encode_entry(e) + encode_entries(rest_es));
        lemma_parse_encode_entry(e, encode_entries(rest_es), cap);
        assert(!has_key(acc, e.0));
        assert forall|i: int|
            0 <= i < rest_es.len() implies (#[trigger] rest_es[i]).1.no_duplicates() && 0
            < rest_es[i].1.len() <= effective_cap(cap) && rest_es[i].1.len() <= u64::MAX by {
            assert(rest_es[i] == es[i + 1]);
        }
        assert forall|i: int, j: int|
            0 <= i < j < rest_es.len() implies (#[trigger] rest_es[i]).0 != (
        #[trigger] rest_es[j]).0 by {
            assert(rest_es[i] == es[i + 1]);
            assert(rest_es[j] == es[j + 1]);
        }
        assert forall|i: int| 0 <= i < rest_es.len() implies !has_key(
            acc.push(e),
            (#[trigger] rest_es[i]).0,
        ) by {
            assert(rest_es[i] == es[i + 1]);
            if has_key(acc.push(e), es[i + 1].0) {
                let w = choose|w: int|
                    0 <= w < acc.push(e).len() && (#[trigger] acc.push(e)[w]).0 == es[i + 1].0;
                if w < acc.len() {
                    assert(acc[w] == acc.push(e)[w]);
                    assert(has_key(acc, es[i + 1].0));
                } else {
                    assert(acc.push(e)[w] == e);
                    assert(es[0].0 != es[i + 1].0);
                }
            }
        }
        lemma_parse_encode_entries(rest_es, acc.push(e), cap);
        assert(parse_entries(encode_entries(es), es.len(), acc, cap) == parse_entries(
            encode_entries(rest_es),
            rest_es.len(),
            acc.push(e),
            cap,
        ));
        assert(acc.push(e) + rest_es =~= acc + es);
    }
}

/// Law: the bytes a well-formed cache encodes to decode back to exactly
/// its entries — saving and loading changes nothing.
pub proof fn lemma_save_load_round_trip(c: ScopedCache)
    requires
        c.wf(),
        c.entries().len() <= u64::MAX,
    ensures
        parse_model(encode_model(c.entries()), c.capacity()) == Some(c.entries()),
{
    c.lemma_entries_characterize_view();
    let es = c.entries();
    let b = encode_model(es);
    assert(b.subrange(0, 8) =~= le_bytes(es.len() as u64));
    lemma_le_round_trip(es.len() as u64);
    assert(b.subrange(8, b.len() as int) =~= encode_entries(es));
    assert forall|i: int| 0 <= i < es.len() implies !has_key(
        Seq::<(u64, Seq<u64>)>::empty(),
        (#[trigger] es[i]).0,
    ) by {}
    lemma_parse_encode_entries(es, Seq::<(u64, Seq<u64>)>::empty(), c.capacity());
    assert(Seq::<(u64, Seq<u64>)>::empty() + es =~= es);
}

/// Law: two well-formed caches with the same entries answer every
/// membership question alike — in particular a decoded cache answers as
/// the encoded one did, and scopes absent before stay absent.
pub proof fn lemma_entries_fix_membership(a: ScopedCache, b: ScopedCache)
    requires
        a.wf(),
        b.wf(),
        a.entries() == b.entries(),
    ensures
        forall|scope: u64| a@.contains_key(scope) == b@.contains_key(scope),
        forall|scope: u64, id: u64|
            #[trigger] cache_contains(a@, scope, id) == cache_contains(b@, scope, id),
{
    a.lemma_entries_characterize_view();
    b.lemma_entries_characterize_view();
    assert forall|scope: u64| a@.contains_key(scope) == b@.contains_key(scope) by {
        if a@.contains_key(scope) {
            let w = choose|w: int|
                0 <= w < a.entries().len() && (#[trigger] a.entries()[w]).0 == scope;
            assert(b.entries()[w].0 == scope);
        }
        if b@.contains_key(scope) {
            let w = choose|w: int|
                0 <= w < b.entries().len() && (#[trigger] b.entries()[w]).0 == scope;
            assert(a.entries()[w].0 == scope);
        }
    }
    assert forall|scope: u64, id: u64| #[trigger] cache_contains(a@, scope, id) == cache_contains(
        b@,
        scope,
        id,
    ) by {
        if a@.contains_key(scope) {
            let w = choose|w: int|
                0 <= w < a.entries().len() && (#[trigger] a.entries()[w]).0 == scope;
            assert(a@[scope] == a.entries()[w].1);
            assert(b@[scope] == b.entries()[w].1);
        }
    }
}

/// Serializes every scope — after a leading scope count — as key, element
/// count and identifiers oldest first, all 64-bit little-endian.
pub fn encode(cache: &ScopedCache) -> (out: Vec<u8>)
    requires
        cache.wf(),
    ensures
        out@ == encode_model(cache.entries()),
{
    let ghost es = cache.entries();
    let mut out: Vec<u8> = Vec::new();
    let n = cache.scope_count();
    write_u64(&mut out, n as u64);
    proof {
        assert(es.subrange(0, 0) =~= Seq::<(u64, Seq<u64>)>::empty());
        assert(out@ =~= le_bytes(n as u64) + encode_entries(es.subrange(0, 0)));
    }
    let mut i: usize = 0;
    while i < n
        invariant
            cache.wf(),
            es == cache.entries(),
            n == es.len(),
            i <= n,
            out@ == le_bytes(n as u64) + encode_entries(es.subrange(0, i as int)),
        decreases n - i,
    {
        let ghost out_start = out@;
        let key = cache.scope_key(i);
        let set = cache.scope_set(i);
        let m = set.len();
        write_u64(&mut out, key);
        write_u64(&mut out, m as u64);
        let ghost ids = es[i as int].1;
        let mut j: usize = 0;
        while j < m
            invariant
                cache.wf(),
                es == cache.entries(),
                i < es.len(),
                ids == es[i as int].1,
                m == ids.len(),
                j <= m,
                out@ == out_start + le_bytes(es[i as int].0) + le_bytes(m as u64) + encode_ids(
                    ids.subrange(0, j as int),
                ),
            decreases m - j,
        {
            let set = cache.scope_set(i);
            let id = set.get(j);
            write_u64(&mut out, id);
            proof {
                assert(ids.subrange(0, j as int + 1) =~= ids.subrange(0, j as int).push(id));
                lemma_encode_ids_push(ids.subrange(0, j as int), id);
                assert(out@ =~= out_start + le_bytes(es[i as int].0) + le_bytes(m as u64)
                    + encode_ids(ids.subrange(0, j as int + 1)));
            }
            j = j + 1;
        }
        proof {
            assert(ids.subrange(0, m as int) =~= ids);
            assert(es.subrange(0, i as int + 1) =~= es.subrange(0, i as int).push(es[i as int]));
            lemma_encode_entries_push(es.subrange(0, i as int), es[i as int]);
            assert(out@ =~= le_bytes(n as u64) + encode_entries(es.subrange(0, i as int + 1)));
        }
        i = i + 1;
    }
    proof {
        assert(es.subrange(0, n as int) =~= es);
    }
    out
}

/// Rebuilds a cache from persisted bytes, each scope's set created at
/// capacity `capacity` with its index recomputed.  Fails — yielding no
/// cache at all — exactly on bytes that are not a well-formed encoding:
/// truncated input, trailing bytes, an empty or oversized scope, a
/// repeated scope key or a repeated identifier.
pub fn decode(bytes: &Vec<u8>, capacity: usize) -> (loaded: Result<ScopedCache, CacheError>)
    ensures
        match loaded {
            Ok(c) => {
                &&& c.wf()
                &&& c.capacity() == capacity as nat
                &&& parse_model(bytes@, capacity as nat) == Some(c.entries())
            },
            Err(e) => {
                &&& e == CacheError::LoadFailure
                &&& parse_model(bytes@, capacity as nat) is None
            },
        },
{
    let len = bytes.len();
    if len < 8 {
        return Err(CacheError::LoadFailure);
    }
    let total = read_u64(bytes, 0);
    let mut cache = ScopedCache::new(capacity);
    let mut pos: usize = 8;
    let mut parsed: u64 = 0;
    proof {
        assert(parse_model(bytes@, capacity as nat) == parse_entries(
            bytes@.subrange(8, len as int),
            total as nat,
            Seq::<(u64, Seq<u64>)>::empty(),
            capacity as nat,
        ));
    }
    while parsed < total
        invariant
            cache.wf(),
            cache.capacity() == capacity as nat,
            len == bytes@.len(),
            8 <= pos <= len,
            parsed <= total,
            parse_model(bytes@, capacity as nat) == parse_entries(
                bytes@.subrange(pos as int, len as int),
                (total - parsed) as nat,
                cache.entries(),
                capacity as nat,
            ),
        decreases total - parsed,
    {
        let ghost rest = bytes@.subrange(pos as int, len as int);
        if len - pos < 16 {
            return Err(CacheError::LoadFailure);
        }
        let key = read_u64(bytes, pos);
        let count64 = read_u64(bytes, pos + 8);
        proof {
            assert(rest.subrange(0, 8) =~= bytes@.subrange(pos as int, pos as int + 8));
            assert(rest.subrange(8, 16) =~= bytes@.subrange(pos as int + 8, pos as int + 16));
        }
        let cap_bound: usize = if capacity == 0 {
            1
        } else {
            capacity
        };
        if count64 == 0 || count64 > cap_bound as u64 {
            return Err(CacheError::LoadFailure);
        }
        let count = count64 as usize;
        let room = (len - pos - 16) / 8;
        proof {
            assert(count as int <= (len - pos - 16) / 8 ==> 16 + 8 * (count as int) <= len - pos)
                by (nonlinear_arith);
            assert(count as int > (len - pos - 16) / 8 ==> 16 + 8 * (count as int) > len - pos)
                by (nonlinear_arith);
        }
        if count > room {
            proof {
                assert(rest.len() < 16 + 8 * (count64 as nat));
                assert(parse_entry(rest, capacity as nat) is None);
            }
            return Err(CacheError::LoadFailure);
        }
        let ghost spec_ids = ids_at(rest, count64 as nat);
        let mut ids: Vec<u64> = Vec::new();
        let mut seen: HashSet<u64> = HashSet::new();
        proof {
            assert(seen@ =~= ids@.to_set());
        }
        let mut j: usize = 0;
        while j < count
            invariant
                len == bytes@.len(),
                8 <= pos <= len,
                16 + 8 * (count as int) <= len - pos,
                count as u64 == count64,
                1 <= count64,
                count64 as nat <= effective_cap(capacity as nat),
                rest == bytes@.subrange(pos as int, len as int),
                le_value(rest.subrange(8, 16)) == count64,
                spec_ids == ids_at(rest, count64 as nat),
                parsed < total,
                parse_model(bytes@, capacity as nat) == parse_entries(
                    rest,
                    (total - parsed) as nat,
                    cache.entries(),
                    capacity as nat,
                ),
                j <= count,
                ids@ == spec_ids.subrange(0, j as int),
                ids@.no_duplicates(),
                seen@ == ids@.to_set(),
            decreases count - j,
        {
            let id = read_u64(bytes, pos + 16 + 8 * j);
            proof {
                assert(rest.subrange(16 + 8 * (j as int), 24 + 8 * (j as int)) =~= bytes@.subrange(
                    pos as int + 16 + 8 * (j as int),
                    pos as int + 24 + 8 * (j as int),
                ));
                assert(id == spec_ids[j as int]);
            }
            if seen.contains(&id) {
                proof {
                    let w = choose|w: int| 0 <= w < ids@.len() && ids@[w] == id;
                    assert(spec_ids[w] == spec_ids[j as int]);
                    assert(!spec_ids.no_duplicates());
                    assert(parse_entry(rest, capacity as nat) is None);
                }
                return Err(CacheError::LoadFailure);
            }
            proof {
                lemma_push_no_duplicates(ids@, id);
                lemma_push_to_set(ids@, id);
                assert(spec_ids.subrange(0, j as int + 1) =~= ids@.push(id));
            }
            seen.insert(id);
            ids.push(id);
            j = j + 1;
        }
        proof {
            assert(ids@ =~= spec_ids);
        }
        let ghost entry = (key, spec_ids);
        proof {
            assert(parse_entry(rest, capacity as nat) == Some(
                (entry, rest.subrange(16 + 8 * (count as int), rest.len() as int)),
            ));
        }
        if cache.has_scope(key) {
            proof {
                cache.lemma_entries_characterize_view();
                assert(has_key(cache.entries(), key));
            }
            return Err(CacheError::LoadFailure);
        }
        proof {
            cache.lemma_entries_characterize_view();
            assert(!has_key(cache.entries(), key)) by {
                if has_key(cache.entries(), key) {
                    let w = choose|w: int|
                        0 <= w < cache.entries().len() && (#[trigger] cache.entries()[w]).0 == key;
                    assert(cache@.contains_key(key));
                }
            }
        }
        cache.insert_scope(key, ids);
        proof {
            assert(rest.subrange(16 + 8 * (count as int), rest.len() as int) =~= bytes@.subrange(
                pos as int + 16 + 8 * (count as int),
                len as int,
            ));
        }
        pos = pos + 16 + 8 * count;
        parsed = parsed + 1;
    }
    if pos < len {
        return Err(CacheError::LoadFailure);
    }
    proof {
        assert(bytes@.subrange(pos as int, len as int).len() == 0);
    }
    Ok(cache)
}

} // verus!
