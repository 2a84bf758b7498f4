use vstd::prelude::*;
use vstd::bytes::{
    spec_u64_to_le_bytes, spec_u64_from_le_bytes, lemma_auto_spec_u64_to_from_le_bytes, u64_to_le_bytes,
    u64_from_le_bytes,
};
use vstd::slice::{slice_subrange, slice_to_vec};
use vstd::string::*;
use vstd::utf8::{encode_utf8, decode_utf8, valid_utf8, encode_utf8_valid_utf8, encode_utf8_decode_utf8};
use crate::item::{NewsItem, Timestamp, opt_text, content_digest, content_digest_of};

verus! {

/// The stored fields of an item, as plain values.
pub struct ItemRecord {
    pub title: Option<Seq<char>>,
    pub description: Option<Seq<char>>,
    pub raw_date: Option<Seq<char>>,
    pub publish_date: Option<Timestamp>,
    pub image_url: Option<Seq<char>>,
    pub image_path: Option<Seq<char>>,
    pub digest: Seq<u8>,
}

pub open spec fn record_of(it: NewsItem) -> ItemRecord {
    ItemRecord {
        title: opt_text(it.title),
        description: opt_text(it.description),
        raw_date: opt_text(it.raw_date),
        publish_date: it.publish_date,
        image_url: opt_text(it.image_url),
        image_path: opt_text(it.image_path),
        digest: it.digest@,
    }
}

pub open spec fn records_of(s: Seq<NewsItem>) -> Seq<ItemRecord> {
    s.map_values(|it: NewsItem| record_of(it))
}

// ---- the store file format ----
//
// store   := count:u64 record*
// record  := text? text? text? date? text? text? digest:[u8; 32]
// text?   := 0 | 1 len:u64 utf8-bytes[len]
// date?   := 0 | 1 secs:u64 nanos:u64 offset:u64
// Integers are little-endian; signed ones are stored as their two's
// complement bit pattern.

pub open spec fn enc_u64(x: u64) -> Seq<u8> {
    spec_u64_to_le_bytes(x)
}

pub open spec fn enc_text(s: Seq<char>) -> Seq<u8> {
    enc_u64(encode_utf8(s).len() as u64) + encode_utf8(s)
}

pub open spec fn enc_opt_text(o: Option<Seq<char>>) -> Seq<u8> {
    match o {
        None => seq![0u8],
        Some(s) => seq![1u8] + enc_text(s),
    }
}

pub open spec fn enc_date(o: Option<Timestamp>) -> Seq<u8> {
    match o {
        None => seq![0u8],
        Some(t) => seq![1u8] + enc_u64(#[verifier::truncate] (t.secs as u64)) + enc_u64(
            t.nanos as u64,
        ) + enc_u64(#[verifier::truncate] (t.offset as u64)),
    }
}

pub open spec fn enc_record(r: ItemRecord) -> Seq<u8> {
    enc_opt_text(r.title) + enc_opt_text(r.description) + enc_opt_text(r.raw_date) + enc_date(
        r.publish_date,
    ) + enc_opt_text(r.image_url) + enc_opt_text(r.image_path) + r.digest
}

pub open spec fn enc_records(rs: Seq<ItemRecord>) -> Seq<u8>
    decreases rs.len(),
{
    if rs.len() == 0 {
        Seq::empty()
    } else {
        enc_records(rs.drop_last()) + enc_record(rs.last())
    }
}

/// The bytes of a store file holding `rs`.
pub open spec fn encode_store(rs: Seq<ItemRecord>) -> Seq<u8> {
    enc_u64(rs.len() as u64) + enc_records(rs)
}

pub open spec fn parse_u64(b: Seq<u8>, p: int) -> Option<(u64, int)> {
    if 0 <= p && p + 8 <= b.len() {
        Some((spec_u64_from_le_bytes(b.subrange(p, p + 8)), p + 8))
    } else {
        None
    }
}

pub open spec fn parse_text(b: Seq<u8>, p: int) -> Option<(Seq<char>, int)> {
    match parse_u64(b, p) {
        Some((n, q)) => if q + n <= b.len() && valid_utf8(b.subrange(q, q + n)) {
            Some((decode_utf8(b.subrange(q, q + n)), q + n))
        } else {
            None
        },
        None => None,
    }
}

pub open spec fn parse_opt_text(b: Seq<u8>, p: int) -> Option<(Option<Seq<char>>, int)> {
    if 0 <= p < b.len() && b[p] == 0 {
        Some((None, p + 1))
    } else if 0 <= p < b.len() && b[p] == 1 {
        match parse_text(b, p + 1) {
            Some((s, q)) => Some((Some(s), q)),
            None => None,
        }
    } else {
        None
    }
}

pub open spec fn parse_date(b: Seq<u8>, p: int) -> Option<(Option<Timestamp>, int)> {
    if 0 <= p < b.len() && b[p] == 0 {
        Some((None, p + 1))
    } else if 0 <= p < b.len() && b[p] == 1 {
        match parse_u64(b, p + 1) {
            Some((s, q)) => match parse_u64(b, q) {
                Some((ns, q2)) => match parse_u64(b, q2) {
                    Some((o, e)) => Some(
                        (
                            Some(
                                Timestamp {
                                    secs: #[verifier::truncate] (s as i64),
                                    nanos: #[verifier::truncate] (ns as u32),
                                    offset: #[verifier::truncate] (o as i32),
                                },
                            ),
                            e,
                        ),
                    ),
                    None => None,
                },
                None => None,
            },
            None => None,
        }
    } else {
        None
    }
}

pub open spec fn parse_record(b: Seq<u8>, p: int) -> Option<(ItemRecord, int)> {
    match parse_opt_text(b, p) {
        None => None,
        Some((title, at1)) => match parse_opt_text(b, at1) {
            None => None,
            Some((description, at2)) => match parse_opt_text(b, at2) {
                None => None,
                Some((raw_date, at3)) => match parse_date(b, at3) {
                    None => None,
                    Some((publish_date, at4)) => match parse_opt_text(b, at4) {
                        None => None,
                        Some((image_url, at5)) => match parse_opt_text(b, at5) {
                            None => None,
                            Some((image_path, at6)) => if at6 + 32 <= b.len() {
                                Some(
                                    (
                                        ItemRecord {
                                            title,
                                            description,
                                            raw_date,
                                            publish_date,
                                            image_url,
                                            image_path,
                                            digest: b.subrange(at6, at6 + 32),
                                        },
                                        at6 + 32,
                                    ),
                                )
                            } else {
                                None
                            },
                        },
                    },
                },
            },
        },
    }
}

pub open spec fn parse_records(b: Seq<u8>, p: int, n: nat) -> Option<(Seq<ItemRecord>, int)>
    decreases n,
{
    if n == 0 {
        Some((Seq::empty(), p))
    } else {
        match parse_records(b, p, (n - 1) as nat) {
            None => None,
            Some((rs, q)) => match parse_record(b, q) {
                None => None,
                Some((r, e)) => Some((rs.push(r), e)),
            },
        }
    }
}

/// What a store file's bytes hold: the records, when the bytes are exactly
/// one well-formed store; else nothing.
pub open spec fn decode_store(b: Seq<u8>) -> Option<Seq<ItemRecord>> {
    match parse_u64(b, 0) {
        None => None,
        Some((n, q)) => match parse_records(b, q, n as nat) {
            Some((rs, e)) => if e == b.len() {
                Some(rs)
            } else {
                None
            },
            None => None,
        },
    }
}

/// A record that a well-formed item gives: title and description present,
/// and the digest that of the two.
pub open spec fn record_valid(r: ItemRecord) -> bool {
    &&& r.title is Some
    &&& r.description is Some
    &&& r.digest == content_digest_of(r.title.unwrap(), r.description.unwrap())
}

pub open spec fn all_valid(rs: Seq<ItemRecord>) -> bool {
    forall|i: int| 0 <= i < rs.len() ==> record_valid(#[trigger] rs[i])
}

/// `b` holds `x` from position `p` on.
pub open spec fn holds_at(b: Seq<u8>, p: int, x: Seq<u8>) -> bool {
    0 <= p && p + x.len() <= b.len() && b.subrange(p, p + x.len()) == x
}

proof fn lemma_holds_split(b: Seq<u8>, p: int, x: Seq<u8>, y: Seq<u8>)
    requires
        holds_at(b, p, x + y),
    ensures
        holds_at(b, p, x),
        holds_at(b, p + x.len(), y),
{
    let w = b.subrange(p, p + (x + y).len());
    assert(b.subrange(p, p + x.len()) =~= w.subrange(0, x.len() as int));
    assert(w.subrange(0, x.len() as int) =~= x);
    assert(b.subrange(p + x.len(), p + x.len() + y.len()) =~= w.subrange(
        x.len() as int,
        w.len() as int,
    ));
    assert(w.subrange(x.len() as int, w.len() as int) =~= y);
}

/// Text fits the format when its UTF-8 length fits a `u64`.
pub open spec fn text_fits(o: Option<Seq<char>>) -> bool {
    match o {
        Some(s) => encode_utf8(s).len() <= u64::MAX,
        None => true,
    }
}

pub open spec fn record_fits(r: ItemRecord) -> bool {
    &&& text_fits(r.title)
    &&& text_fits(r.description)
    &&& text_fits(r.raw_date)
    &&& text_fits(r.image_url)
    &&& text_fits(r.image_path)
    &&& r.digest.len() == 32
}

proof fn lemma_parse_u64(b: Seq<u8>, p: int, x: u64)
    requires
        holds_at(b, p, enc_u64(x)),
    ensures
        parse_u64(b, p) == Some((x, p + 8)),
{
    lemma_auto_spec_u64_to_from_le_bytes();
}

proof fn lemma_parse_opt_text(b: Seq<u8>, p: int, o: Option<Seq<char>>)
    requires
        holds_at(b, p, enc_opt_text(o)),
        text_fits(o),
    ensures
        parse_opt_text(b, p) == Some((o, p + enc_opt_text(o).len())),
{
    lemma_auto_spec_u64_to_from_le_bytes();
    match o {
        None => {
            assert(b[p] == b.subrange(p, p + 1)[0]);
        },
        Some(s) => {
            assert(b[p] == b.subrange(p, p + enc_opt_text(o).len())[0]);
            lemma_holds_split(b, p, seq![1u8], enc_text(s));
            let e = encode_utf8(s);
            lemma_holds_split(b, p + 1, enc_u64(e.len() as u64), e);
            lemma_parse_u64(b, p + 1, e.len() as u64);
            encode_utf8_valid_utf8(s);
            encode_utf8_decode_utf8(s);
        },
    }
}

proof fn lemma_cast_round_trip(secs: i64, offset: i32, nanos: u32)
    ensures
        (#[verifier::truncate] ((nanos as u64) as u32)) == nanos,
        (#[verifier::truncate] ((#[verifier::truncate] (secs as u64)) as i64)) == secs,
        (#[verifier::truncate] ((#[verifier::truncate] (offset as u64)) as i32)) == offset,
{
    assert((#[verifier::truncate] ((#[verifier::truncate] (secs as u64)) as i64)) == secs) by (bit_vector);
    assert((#[verifier::truncate] ((#[verifier::truncate] (offset as u64)) as i32)) == offset) by (bit_vector);
    assert((#[verifier::truncate] ((nanos as u64) as u32)) == nanos) by (bit_vector);
}

proof fn lemma_parse_date(b: Seq<u8>, p: int, o: Option<Timestamp>)
    requires
        holds_at(b, p, enc_date(o)),
    ensures
        parse_date(b, p) == Some((o, p + enc_date(o).len())),
{
    lemma_auto_spec_u64_to_from_le_bytes();
    match o {
        None => {
            assert(b[p] == b.subrange(p, p + 1)[0]);
        },
        Some(t) => {
            assert(b[p] == b.subrange(p, p + enc_date(o).len())[0]);
            let s = #[verifier::truncate] (t.secs as u64);
            let o = #[verifier::truncate] (t.offset as u64);
            let ns = t.nanos as u64;
            lemma_holds_split(b, p, seq![1u8] + enc_u64(s) + enc_u64(ns), enc_u64(o));
            lemma_holds_split(b, p, seq![1u8] + enc_u64(s), enc_u64(ns));
            lemma_holds_split(b, p, seq![1u8], enc_u64(s));
            lemma_parse_u64(b, p + 1, s);
            lemma_parse_u64(b, p + 9, ns);
            lemma_parse_u64(b, p + 17, o);
            lemma_cast_round_trip(t.secs, t.offset, t.nanos);
        },
    }
}

proof fn lemma_parse_record(b: Seq<u8>, p: int, r: ItemRecord)
    requires
        holds_at(b, p, enc_record(r)),
        record_fits(r),
    ensures
        parse_record(b, p) == Some((r, p + enc_record(r).len())),
{
    let a1 = enc_opt_text(r.title);
    let a2 = enc_opt_text(r.description);
    let a3 = enc_opt_text(r.raw_date);
    let a4 = enc_date(r.publish_date);
    let a5 = enc_opt_text(r.image_url);
    let a6 = enc_opt_text(r.image_path);
    lemma_holds_split(b, p, a1 + a2 + a3 + a4 + a5 + a6, r.digest);
    lemma_holds_split(b, p, a1 + a2 + a3 + a4 + a5, a6);
    lemma_holds_split(b, p, a1 + a2 + a3 + a4, a5);
    lemma_holds_split(b, p, a1 + a2 + a3, a4);
    lemma_holds_split(b, p, a1 + a2, a3);
    lemma_holds_split(b, p, a1, a2);
    let at1 = p + a1.len();
    let at2 = at1 + a2.len();
    let at3 = at2 + a3.len();
    let at4 = at3 + a4.len();
    let at5 = at4 + a5.len();
    let at6 = at5 + a6.len();
    lemma_parse_opt_text(b, p, r.title);
    lemma_parse_opt_text(b, at1, r.description);
    lemma_parse_opt_text(b, at2, r.raw_date);
    lemma_parse_date(b, at3, r.publish_date);
    lemma_parse_opt_text(b, at4, r.image_url);
    lemma_parse_opt_text(b, at5, r.image_path);
}

proof fn lemma_parse_records(b: Seq<u8>, p: int, rs: Seq<ItemRecord>)
    requires
        holds_at(b, p, enc_records(rs)),
        forall|i: int| 0 <= i < rs.len() ==> record_fits(#[trigger] rs[i]),
    ensures
        parse_records(b, p, rs.len()) == Some((rs, p + enc_records(rs).len())),
    decreases rs.len(),
{
    if rs.len() == 0 {
        assert(parse_records(b, p, 0) == Some((Seq::<ItemRecord>::empty(), p)));
        assert(rs =~= Seq::<ItemRecord>::empty());
    } else {
        let d = rs.drop_last();
        lemma_holds_split(b, p, enc_records(d), enc_record(rs.last()));
        assert forall|i: int| 0 <= i < d.len() implies record_fits(#[trigger] d[i]) by {
            assert(d[i] == rs[i]);
        }
        lemma_parse_records(b, p, d);
        lemma_parse_record(b, p + enc_records(d).len(), rs.last());
        assert(d.push(rs.last()) =~= rs);
        assert((rs.len() - 1) as nat == d.len());
    }
}

proof fn lemma_store_round_trip(rs: Seq<ItemRecord>)
    requires
        rs.len() <= u64::MAX,
        forall|i: int| 0 <= i < rs.len() ==> record_fits(#[trigger] rs[i]),
    ensures
        decode_store(encode_store(rs)) == Some(rs),
{
    let b = encode_store(rs);
    lemma_auto_spec_u64_to_from_le_bytes();
    assert(enc_u64(rs.len() as u64).len() == 8);
    assert(b.subrange(0, b.len() as int) =~= b);
    lemma_holds_split(b, 0, enc_u64(rs.len() as u64), enc_records(rs));
    lemma_parse_u64(b, 0, rs.len() as u64);
    lemma_parse_records(b, 8, rs);
}

/// Persisting items and reading them back gives as many items, each with
/// every field equal to the one written (texts whose UTF-8 length fits a
/// `u64`, which every `String` does).
pub proof fn lemma_items_round_trip(items: Seq<NewsItem>)
    requires
        items.len() <= u64::MAX,
        forall|i: int| 0 <= i < items.len() ==> record_fits(#[trigger] record_of(items[i])),
    ensures
        decode_store(encode_store(records_of(items))) == Some(records_of(items)),
        (forall|i: int| 0 <= i < items.len() ==> (#[trigger] items[i]).wf()) ==> all_valid(
            records_of(items),
        ),
{
    let rs = records_of(items);
    assert forall|i: int| 0 <= i < rs.len() implies record_fits(#[trigger] rs[i]) by {
        assert(rs[i] == record_of(items[i]));
    }
    lemma_store_round_trip(rs);
}

/// Why a store file could not be read back.
#[derive(Clone, Copy, Debug, PartialEq, Eq, Structural)]
pub enum StoreError {
    /// The bytes are not one well-formed store.
    Corrupt,
}

/// Relies on `String::from_utf8`: it succeeds exactly on valid UTF-8, and
/// the string then consists of those bytes.
#[verifier::external_body]
fn text_from_utf8(b: Vec<u8>) -> (r: Option<String>)
    ensures
        r is Some <==> valid_utf8(b@),
        r matches Some(s) ==> encode_utf8(s@) == b@,
{
    String::from_utf8(b).ok()
}

fn put_u64(out: &mut Vec<u8>, x: u64)
    ensures
        final(out)@ == old(out)@ + enc_u64(x),
{
    let mut b = u64_to_le_bytes(x);
    out.append(&mut b);
}

fn put_opt_text(out: &mut Vec<u8>, o: &Option<String>)
    ensures
        final(out)@ == old(out)@ + enc_opt_text(opt_text(*o)),
        text_fits(opt_text(*o)),
{
    let ghost start = out@;
    match o {
        None => {
            out.push(0);
            assert(out@ =~= start + seq![0u8]);
        },
        Some(s) => {
            out.push(1);
            let mut bytes = s.as_str().as_bytes_vec();
            put_u64(out, bytes.len() as u64);
            out.append(&mut bytes);
            assert(out@ =~= start + (seq![1u8] + enc_text(s@)));
        },
    }
}

fn put_date(out: &mut Vec<u8>, o: &Option<Timestamp>)
    ensures
        final(out)@ == old(out)@ + enc_date(*o),
{
    let ghost start = out@;
    match o {
        None => {
            out.push(0);
            assert(out@ =~= start + seq![0u8]);
        },
        Some(t) => {
            out.push(1);
            put_u64(out, t.secs as u64);
            put_u64(out, t.nanos as u64);
            put_u64(out, t.offset as u64);
            assert(out@ =~= start + enc_date(*o));
        },
    }
}

#[verifier::spinoff_prover]
#[verifier::rlimit(40)]
fn put_item(out: &mut Vec<u8>, it: &NewsItem)
    ensures
        final(out)@ == old(out)@ + enc_record(record_of(*it)),
        record_fits(record_of(*it)),
{
    let ghost start = out@;
    put_opt_text(out, &it.title);
    put_opt_text(out, &it.description);
    put_opt_text(out, &it.raw_date);
    put_date(out, &it.publish_date);
    put_opt_text(out, &it.image_url);
    put_opt_text(out, &it.image_path);
    let ghost before = out@;
    let mut k: usize = 0;
    while k < 32
        invariant
            k <= 32,
            out@.len() == before.len() + k,
            out@.subrange(0, before.len() as int) == before,
            forall|j: int| 0 <= j < k ==> out@[before.len() + j] == it.digest@[j],
        decreases 32 - k,
    {
        out.push(it.digest[k]);
        k = k + 1;
        assert(out@.subrange(0, before.len() as int) =~= before);
    }
    assert(out@ =~= before + it.digest@);
    assert(before =~= start + (enc_opt_text(opt_text(it.title)) + enc_opt_text(
        opt_text(it.description),
    ) + enc_opt_text(opt_text(it.raw_date)) + enc_date(it.publish_date) + enc_opt_text(
        opt_text(it.image_url),
    ) + enc_opt_text(opt_text(it.image_path))));
    assert(out@ =~= start + enc_record(record_of(*it)));
}

/// The bytes of a store file holding `items`, in order. Reading them back
/// gives the same items, every field equal.
pub fn encode_items(items: &Vec<NewsItem>) -> (r: Vec<u8>)
    ensures
        r@ == encode_store(records_of(items@)),
        decode_store(r@) == Some(records_of(items@)),
{
    let ghost rs = records_of(items@);
    let mut out: Vec<u8> = Vec::new();
    put_u64(&mut out, items.len() as u64);
    let mut i: usize = 0;
    while i < items.len()
        invariant
            i <= items@.len(),
            rs == records_of(items@),
            out@ == enc_u64(items@.len() as u64) + enc_records(rs.subrange(0, i as int)),
            forall|j: int| 0 <= j < i ==> record_fits(#[trigger] rs[j]),
        decreases items@.len() - i,
    {
        assert(rs.subrange(0, i + 1).drop_last() =~= rs.subrange(0, i as int));
        assert(rs.subrange(0, i + 1).last() == record_of(items@[i as int]));
        put_item(&mut out, &items[i]);
        i = i + 1;
        assert(out@ =~= enc_u64(items@.len() as u64) + enc_records(rs.subrange(0, i as int)));
    }
    assert(rs.subrange(0, items@.len() as int) =~= rs);
    proof {
        lemma_store_round_trip(rs);
    }
    out
}

fn get_u64(b: &Vec<u8>, p: usize) -> (r: Option<(u64, usize)>)
    ensures
        match r {
            Some((x, q)) => parse_u64(b@, p as int) == Some((x, q as int)),
            None => parse_u64(b@, p as int) is None,
        },
{
    if b.len() < 8 || p > b.len() - 8 {
        None
    } else {
        let s = slice_subrange(b.as_slice(), p, p + 8);
        Some((u64_from_le_bytes(s), p + 8))
    }
}

fn get_opt_text(b: &Vec<u8>, p: usize) -> (r: Option<(Option<String>, usize)>)
    ensures
        match r {
            Some((o, q)) => parse_opt_text(b@, p as int) == Some((opt_text(o), q as int)),
            None => parse_opt_text(b@, p as int) is None,
        },
{
    if p >= b.len() {
        return None;
    }
    if b[p] == 0 {
        return Some((None, p + 1));
    }
    if b[p] != 1 {
        return None;
    }
    match get_u64(b, p + 1) {
        None => None,
        Some((n, q)) => {
            if n > (b.len() - q) as u64 {
                return None;
            }
            let m = n as usize;
            let bytes = slice_to_vec(slice_subrange(b.as_slice(), q, q + m));
            match text_from_utf8(bytes) {
                Some(s) => {
                    proof {
                        encode_utf8_decode_utf8(s@);
                    }
                    Some((Some(s), q + m))
                },
                None => None,
            }
        },
    }
}

fn get_date(b: &Vec<u8>, p: usize) -> (r: Option<(Option<Timestamp>, usize)>)
    ensures
        match r {
            Some((o, q)) => parse_date(b@, p as int) == Some((o, q as int)),
            None => parse_date(b@, p as int) is None,
        },
{
    if p >= b.len() {
        return None;
    }
    if b[p] == 0 {
        return Some((None, p + 1));
    }
    if b[p] != 1 {
        return None;
    }
    match get_u64(b, p + 1) {
        None => None,
        Some((s, q)) => match get_u64(b, q) {
            None => None,
            Some((ns, q2)) => match get_u64(b, q2) {
                None => None,
                Some((o, e)) => Some(
                    (Some(Timestamp { secs: s as i64, nanos: ns as u32, offset: o as i32 }), e),
                ),
            },
        },
    }
}

fn get_item(b: &Vec<u8>, p: usize) -> (r: Option<(NewsItem, usize)>)
    ensures
        match r {
            Some((it, q)) => parse_record(b@, p as int) == Some((record_of(it), q as int)),
            None => parse_record(b@, p as int) is None,
        },
{
    let (title, at1) = match get_opt_text(b, p) {
        Some(x) => x,
        None => return None,
    };
    let (description, at2) = match get_opt_text(b, at1) {
        Some(x) => x,
        None => return None,
    };
    let (raw_date, at3) = match get_opt_text(b, at2) {
        Some(x) => x,
        None => return None,
    };
    let (publish_date, at4) = match get_date(b, at3) {
        Some(x) => x,
        None => return None,
    };
    let (image_url, at5) = match get_opt_text(b, at4) {
        Some(x) => x,
        None => return None,
    };
    let (image_path, at6) = match get_opt_text(b, at5) {
        Some(x) => x,
        None => return None,
    };
    if b.len() < 32 || at6 > b.len() - 32 {
        return None;
    }
    let mut digest = [0u8; 32];
    let end: usize = at6 + 32;
    let mut k: usize = 0;
    while k < 32
        invariant
            k <= 32,
            end == at6 + 32,
            end <= b@.len(),
            forall|j: int| 0 <= j < k ==> digest@[j] == b@[at6 + j],
        decreases 32 - k,
    {
        digest[k] = b[at6 + k];
        k = k + 1;
    }
    assert(digest@ =~= b@.subrange(at6 as int, at6 + 32));
    let it = NewsItem { title, description, raw_date, publish_date, image_url, image_path, digest };
    Some((it, end))
}

proof fn lemma_parse_records_stuck(b: Seq<u8>, p: int, k: nat, m: nat)
    requires
        parse_records(b, p, k) is None,
        k <= m,
    ensures
        parse_records(b, p, m) is None,
    decreases m - k,
{
    if k < m {
        lemma_parse_records_stuck(b, p, k, (m - 1) as nat);
    }
}

proof fn lemma_parse_records_prefix(b: Seq<u8>, p: int, k: nat, m: nat)
    requires
        k <= m,
        parse_records(b, p, m) is Some,
    ensures
        parse_records(b, p, k) is Some,
        parse_records(b, p, m).unwrap().0.subrange(0, k as int) == parse_records(b, p, k).unwrap().0,
        parse_records(b, p, m).unwrap().0.len() == m,
    decreases m,
{
    if m > 0 {
        if k < m {
            lemma_parse_records_prefix(b, p, k, (m - 1) as nat);
            let short = parse_records(b, p, (m - 1) as nat).unwrap().0;
            let long = parse_records(b, p, m).unwrap().0;
            assert(long.subrange(0, k as int) =~= short.subrange(0, k as int));
        } else {
            lemma_parse_records_prefix(b, p, (m - 1) as nat, (m - 1) as nat);
            let long = parse_records(b, p, m).unwrap().0;
            assert(long.subrange(0, k as int) =~= long);
        }
    } else {
        let long = parse_records(b, p, m).unwrap().0;
        assert(long.subrange(0, k as int) =~= long);
    }
}

fn digest_matches(it: &NewsItem) -> (r: bool)
    ensures
        r == record_valid(record_of(*it)),
{
    if it.title.is_none() || it.description.is_none() {
        return false;
    }
    let t = it.title.as_ref().unwrap();
    let d = it.description.as_ref().unwrap();
    let want = content_digest(t.as_str(), d.as_str());
    assert(record_of(*it).title.unwrap() == t@);
    assert(record_of(*it).description.unwrap() == d@);
    let mut k: usize = 0;
    while k < 32
        invariant
            k <= 32,
            want@ == content_digest_of(t@, d@),
            record_of(*it).title.unwrap() == t@,
            record_of(*it).description.unwrap() == d@,
            record_of(*it).title is Some,
            record_of(*it).description is Some,
            forall|j: int| 0 <= j < k ==> want@[j] == it.digest@[j],
        decreases 32 - k,
    {
        if want[k] != it.digest[k] {
            assert(want@[k as int] != it.digest@[k as int]);
            assert(want@ != it.digest@);
            assert(record_of(*it).digest == it.digest@);
            assert(want@ == content_digest_of(t@, d@));
            assert(!record_valid(record_of(*it)));
            return false;
        }
        k = k + 1;
    }
    assert(want@ =~= it.digest@);
    true
}

/// Reads a store file back: the items it holds, in order, or `Corrupt` when
/// the bytes are not exactly one well-formed store of well-formed items.
pub fn decode_items(b: &Vec<u8>) -> (r: Result<Vec<NewsItem>, StoreError>)
    ensures
        match r {
            Ok(v) => decode_store(b@) == Some(records_of(v@)) && forall|i: int|
                0 <= i < v@.len() ==> (#[trigger] v@[i]).wf(),
            Err(e) => e == StoreError::Corrupt && (decode_store(b@) is None || !all_valid(
                decode_store(b@).unwrap(),
            )),
        },
{
    let (n, mut p) = match get_u64(b, 0) {
        Some(x) => x,
        None => return Err(StoreError::Corrupt),
    };
    let mut items: Vec<NewsItem> = Vec::new();
    let mut i: u64 = 0;
    while i < n
        invariant
            i <= n,
            parse_u64(b@, 0) == Some((n, 8int)),
            parse_records(b@, 8, i as nat) == Some((records_of(items@), p as int)),
            forall|j: int| 0 <= j < items@.len() ==> (#[trigger] items@[j]).wf(),
        decreases n - i,
    {
        match get_item(b, p) {
            Some((it, q)) => {
                if !digest_matches(&it) {
                    proof {
                        if parse_records(b@, 8, n as nat) is Some {
                            lemma_parse_records_prefix(b@, 8, (i + 1) as nat, n as nat);
                            lemma_parse_records_prefix(b@, 8, i as nat, i as nat);
                            assert(parse_records(b@, 8, (i + 1) as nat) == Some(
                                (records_of(items@).push(record_of(it)), q as int),
                            ));
                            assert(records_of(items@).len() == i);
                            let all = parse_records(b@, 8, n as nat).unwrap().0;
                            assert(all.subrange(0, i + 1)[i as int] == record_of(it));
                            assert(all[i as int] == record_of(it));
                            assert(!record_valid(all[i as int]));
                        }
                    }
                    return Err(StoreError::Corrupt);
                }
                let ghost before = items@;
                let ghost rec = record_of(it);
                items.push(it);
                p = q;
                assert(records_of(items@) =~= records_of(before).push(rec));
            },
            None => {
                proof {
                    lemma_parse_records_stuck(b@, 8, (i + 1) as nat, n as nat);
                }
                return Err(StoreError::Corrupt);
            },
        }
        i = i + 1;
    }
    if p != b.len() {
        return Err(StoreError::Corrupt);
    }
    Ok(items)
}

} // verus!
