//! The wire codec: framed protocol values, their byte encoding, and the
//! decoder that consumes exactly one value from a buffer.
use vstd::prelude::*;

use crate::text::{dec_int, dec_nat, i64_to_dec, u64_to_dec};

pub use crate::server::Query;

verus! {

/// The type-prefix characters the tokenizer recognizes. Only the first four
/// have decode paths; the others are valid prefixes whose decoding is
/// unsupported.
#[derive(Debug, PartialEq, Eq, Structural, Clone, Copy)]
pub enum Kind {
    SimpleString,
    Integer,
    Bulk,
    Array,
    SimpleError,
    Null,
    Boolean,
    Double,
    Big,
    BulkError,
    VerbatimString,
    MapType,
    SetType,
    Push,
}

pub open spec fn spec_kind_of(byte: u8) -> Option<Kind> {
    if byte == 43 {
        Some(Kind::SimpleString)
    } else if byte == 58 {
        Some(Kind::Integer)
    } else if byte == 36 {
        Some(Kind::Bulk)
    } else if byte == 42 {
        Some(Kind::Array)
    } else if byte == 45 {
        Some(Kind::SimpleError)
    } else if byte == 95 {
        Some(Kind::Null)
    } else if byte == 35 {
        Some(Kind::Boolean)
    } else if byte == 44 {
        Some(Kind::Double)
    } else if byte == 40 {
        Some(Kind::Big)
    } else if byte == 33 {
        Some(Kind::BulkError)
    } else if byte == 61 {
        Some(Kind::VerbatimString)
    } else if byte == 37 {
        Some(Kind::MapType)
    } else if byte == 126 {
        Some(Kind::SetType)
    } else if byte == 62 {
        Some(Kind::Push)
    } else {
        None
    }
}

pub open spec fn spec_kind_char(k: Kind) -> char {
    match k {
        Kind::SimpleString => '+',
        Kind::Integer => ':',
        Kind::Bulk => '$',
        Kind::Array => '*',
        Kind::SimpleError => '-',
        Kind::Null => '_',
        Kind::Boolean => '#',
        Kind::Double => ',',
        Kind::Big => '(',
        Kind::BulkError => '!',
        Kind::VerbatimString => '=',
        Kind::MapType => '%',
        Kind::SetType => '~',
        Kind::Push => '>',
    }
}

impl Kind {
    /// The kind selected by a type-prefix byte, if the byte is one.
    pub fn from_byte(byte: u8) -> (r: Option<Kind>)
        ensures
            r == spec_kind_of(byte),
    {
        match byte {
            43 => Some(Kind::SimpleString),
            58 => Some(Kind::Integer),
            36 => Some(Kind::Bulk),
            42 => Some(Kind::Array),
            45 => Some(Kind::SimpleError),
            95 => Some(Kind::Null),
            35 => Some(Kind::Boolean),
            44 => Some(Kind::Double),
            40 => Some(Kind::Big),
            33 => Some(Kind::BulkError),
            61 => Some(Kind::VerbatimString),
            37 => Some(Kind::MapType),
            126 => Some(Kind::SetType),
            62 => Some(Kind::Push),
            _ => None,
        }
    }

    /// The type-prefix character of a kind.
    pub fn byte_char(k: Kind) -> (r: char)
        ensures
            r == spec_kind_char(k),
    {
        match k {
            Kind::SimpleString => '+',
            Kind::Integer => ':',
            Kind::Bulk => '$',
            Kind::Array => '*',
            Kind::SimpleError => '-',
            Kind::Null => '_',
            Kind::Boolean => '#',
            Kind::Double => ',',
            Kind::Big => '(',
            Kind::BulkError => '!',
            Kind::VerbatimString => '=',
            Kind::MapType => '%',
            Kind::SetType => '~',
            Kind::Push => '>',
        }
    }
}

/// One decoded unit of the wire protocol. Payloads are raw bytes: the codec
/// is binary-safe and never assumes a text encoding.
#[derive(Debug, PartialEq)]
pub enum Resp {
    SimpleString(Vec<u8>),
    Integer(i64),
    Bulk(Option<Vec<u8>>),
    Array(Vec<Resp>),
    Null,
}

/// The mathematical shape of a protocol value.
#[verifier::ext_equal]
pub enum RespV {
    SimpleString(Seq<u8>),
    Integer(i64),
    Bulk(Option<Seq<u8>>),
    Array(Seq<RespV>),
    Null,
}

pub open spec fn resp_view(r: Resp) -> RespV
    decreases r,
{
    match r {
        Resp::SimpleString(s) => RespV::SimpleString(s@),
        Resp::Integer(i) => RespV::Integer(i),
        Resp::Bulk(p) => RespV::Bulk(
            match p {
                Some(p) => Some(p@),
                None => None,
            },
        ),
        Resp::Array(items) => RespV::Array(resp_view_list(items@)),
        Resp::Null => RespV::Null,
    }
}

pub open spec fn resp_view_list(items: Seq<Resp>) -> Seq<RespV>
    decreases items,
{
    if items.len() == 0 {
        Seq::empty()
    } else {
        seq![resp_view(items[0])] + resp_view_list(items.drop_first())
    }
}

/// The list view maps the element views one for one.
pub proof fn lemma_resp_view_list(items: Seq<Resp>)
    ensures
        resp_view_list(items).len() == items.len(),
        forall|i: int| 0 <= i < items.len() ==> resp_view_list(items)[i] == resp_view(
            #[trigger] items[i],
        ),
    decreases items,
{
    if items.len() > 0 {
        lemma_resp_view_list(items.drop_first());
        assert forall|i: int| 0 <= i < items.len() implies resp_view_list(items)[i] == resp_view(
            items[i],
        ) by {
            if i == 0 {
                assert(resp_view_list(items)[0] == resp_view(items[0]));
            } else {
                assert(resp_view_list(items)[i] == resp_view_list(items.drop_first())[i - 1]);
                assert(items.drop_first()[i - 1] == items[i]);
            }
        }
    }
}

impl View for Resp {
    type V = RespV;

    open spec fn view(&self) -> RespV {
        resp_view(*self)
    }
}

/// The protocol's line terminator.
pub open spec fn crlf() -> Seq<u8> {
    seq![13u8, 10u8]
}

/// The five bytes of the null Bulk.
pub open spec fn null_bulk() -> Seq<u8> {
    seq![36u8, 45u8, 49u8, 13u8, 10u8]
}

/// The exact byte encoding of a protocol value. Absent values encode as the
/// null Bulk.
pub open spec fn spec_encode(v: RespV) -> Seq<u8>
    decreases v,
{
    match v {
        RespV::SimpleString(s) => seq![43u8] + s + crlf(),
        RespV::Integer(i) => seq![58u8] + dec_int(i as int) + crlf(),
        RespV::Bulk(Some(p)) => seq![36u8] + dec_nat(p.len() as int) + crlf() + p + crlf(),
        RespV::Bulk(None) => null_bulk(),
        RespV::Array(items) => seq![42u8] + dec_nat(items.len() as int) + crlf()
            + spec_encode_list(items),
        RespV::Null => null_bulk(),
    }
}

/// The concatenated encodings of a sequence of values, in order.
pub open spec fn spec_encode_list(items: Seq<RespV>) -> Seq<u8>
    decreases items,
{
    if items.len() == 0 {
        Seq::empty()
    } else {
        spec_encode(items[0]) + spec_encode_list(items.drop_first())
    }
}

pub proof fn lemma_encode_list_push(items: Seq<RespV>, x: RespV)
    ensures
        spec_encode_list(items.push(x)) == spec_encode_list(items) + spec_encode(x),
    decreases items.len(),
{
    let p = items.push(x);
    if items.len() == 0 {
        assert(p[0] == x);
        assert(p.drop_first() =~= Seq::<RespV>::empty());
        assert(spec_encode_list(p.drop_first()) == Seq::<u8>::empty());
        assert(spec_encode_list(p) == spec_encode(x) + Seq::<u8>::empty());
        assert(spec_encode(x) + Seq::<u8>::empty() =~= Seq::<u8>::empty() + spec_encode(x));
    } else {
        lemma_encode_list_push(items.drop_first(), x);
        assert(p.drop_first() =~= items.drop_first().push(x));
        assert(p[0] == items[0]);
        assert(spec_encode_list(p) == spec_encode(items[0]) + (spec_encode_list(items.drop_first())
            + spec_encode(x)));
        assert(spec_encode(items[0]) + (spec_encode_list(items.drop_first()) + spec_encode(x)) =~= (
        spec_encode(items[0]) + spec_encode_list(items.drop_first())) + spec_encode(x));
    }
}

/// The two ways decoding fails: a malformed value, or a prefix whose
/// decoding is unsupported or unrecognized.
#[derive(Debug, PartialEq, Eq, Structural, Clone, Copy)]
pub enum RespErrKind {
    InvalidData,
    InvalidType,
}

/// A decode failure, carrying a short description for diagnostics. The kind
/// alone is the specified behaviour.
#[derive(Debug, PartialEq, Eq, Clone, Copy)]
pub enum RespError {
    InvalidData(&'static str),
    InvalidType(&'static str),
}

impl View for RespError {
    type V = RespErrKind;

    open spec fn view(&self) -> RespErrKind {
        match self {
            RespError::InvalidData(_) => RespErrKind::InvalidData,
            RespError::InvalidType(_) => RespErrKind::InvalidType,
        }
    }
}

impl RespError {
    /// The description this error carries.
    pub fn message(&self) -> (r: &'static str)
    {
        match self {
            RespError::InvalidData(m) => m,
            RespError::InvalidType(m) => m,
        }
    }
}

/// The position of the first CRLF pair, if any.
pub open spec fn spec_find_crlf(s: Seq<u8>) -> Option<int>
    decreases s.len(),
{
    if s.len() < 2 {
        None
    } else if s[0] == 13 && s[1] == 10 {
        Some(0)
    } else {
        match spec_find_crlf(s.drop_first()) {
            Some(i) => Some(i + 1),
            None => None,
        }
    }
}

pub open spec fn has_crlf_at(s: Seq<u8>, j: int) -> bool {
    0 <= j && j + 2 <= s.len() && s[j] == 13 && s[j + 1] == 10
}

/// `spec_find_crlf` returns the first CRLF position, and `None` exactly when
/// there is none.
pub proof fn lemma_find_crlf_props(s: Seq<u8>)
    ensures
        match spec_find_crlf(s) {
            Some(i) => has_crlf_at(s, i) && forall|j: int| 0 <= j < i ==> !has_crlf_at(s, j),
            None => forall|j: int| !has_crlf_at(s, j),
        },
    decreases s.len(),
{
    if s.len() < 2 {
    } else if s[0] == 13 && s[1] == 10 {
    } else {
        lemma_find_crlf_props(s.drop_first());
        let t = s.drop_first();
        assert forall|j: int| has_crlf_at(s, j) implies j >= 1 && has_crlf_at(t, j - 1) by {
            assert(!(s[0] == 13 && s[1] == 10));
            if j >= 1 {
                assert(t[j - 1] == s[j]);
                assert(t[j] == s[j + 1]);
            }
        }
        assert forall|j: int| has_crlf_at(t, j) implies has_crlf_at(s, j + 1) by {
            assert(s[j + 1] == t[j]);
            assert(s[j + 2] == t[j + 1]);
        }
    }
}

/// One decode step: the value a buffer's prefix holds and the bytes it
/// occupies, or the kind of failure. `spec_decode` consumes the type-prefix
/// byte and dispatches; the `_at` functions work on the bytes after it.
pub open spec fn spec_decode(b: Seq<u8>) -> Result<(RespV, int), RespErrKind>
    decreases b.len(), 0int,
{
    if b.len() == 0 {
        Err(RespErrKind::InvalidData)
    } else {
        match spec_kind_of(b[0]) {
            None => Err(RespErrKind::InvalidType),
            Some(k) => {
                let sub = match k {
                    Kind::SimpleString => spec_parse_string_at(b.drop_first()),
                    Kind::Integer => spec_parse_integer_at(b.drop_first()),
                    Kind::Bulk => spec_parse_bulk_at(b.drop_first()),
                    Kind::Array => spec_parse_array_at(b.drop_first()),
                    _ => Err(RespErrKind::InvalidType),
                };
                match sub {
                    Ok((v, n)) => Ok((v, 1 + n)),
                    Err(e) => Err(e),
                }
            },
        }
    }
}

pub open spec fn spec_parse_string_at(t: Seq<u8>) -> Result<(RespV, int), RespErrKind> {
    match spec_find_crlf(t) {
        None => Err(RespErrKind::InvalidData),
        Some(i) => Ok((RespV::SimpleString(t.take(i)), i + 2)),
    }
}

pub open spec fn spec_parse_integer_at(t: Seq<u8>) -> Result<(RespV, int), RespErrKind> {
    match spec_find_crlf(t) {
        None => Err(RespErrKind::InvalidData),
        Some(i) => match crate::text::spec_parse_i64(t.take(i)) {
            None => Err(RespErrKind::InvalidData),
            Some(n) => Ok((RespV::Integer(n), i + 2)),
        },
    }
}

pub open spec fn spec_parse_bulk_at(t: Seq<u8>) -> Result<(RespV, int), RespErrKind> {
    match spec_find_crlf(t) {
        None => Err(RespErrKind::InvalidData),
        Some(i) => match crate::text::spec_parse_i64(t.take(i)) {
            None => Err(RespErrKind::InvalidData),
            Some(len) => if len == -1 {
                Ok((RespV::Null, i + 2))
            } else if len < -1 {
                Err(RespErrKind::InvalidData)
            } else {
                let start = i + 2;
                let end = start + len;
                if end + 2 > t.len() {
                    Err(RespErrKind::InvalidData)
                } else if !(t[end] == 13 && t[end + 1] == 10) {
                    Err(RespErrKind::InvalidData)
                } else {
                    Ok((RespV::Bulk(Some(t.subrange(start, end))), end + 2))
                }
            },
        },
    }
}

pub open spec fn spec_parse_array_at(t: Seq<u8>) -> Result<(RespV, int), RespErrKind>
    decreases t.len(), 2int,
    via spec_parse_array_at_decreases
{
    match spec_find_crlf(t) {
        None => Err(RespErrKind::InvalidData),
        Some(i) => match crate::text::spec_parse_i64(t.take(i)) {
            None => Err(RespErrKind::InvalidData),
            Some(len) => if len < -1 {
                Err(RespErrKind::InvalidData)
            } else if len == -1 {
                Ok((RespV::Null, i + 2))
            } else {
                match spec_decode_elems(t.skip(i + 2), len as int) {
                    Err(e) => Err(e),
                    Ok((vs, n)) => Ok((RespV::Array(vs), i + 2 + n)),
                }
            },
        },
    }
}

#[via_fn]
proof fn spec_parse_array_at_decreases(t: Seq<u8>) {
    lemma_find_crlf_props(t);
}

/// Decodes `count` consecutive values from the front of `rest`.
pub open spec fn spec_decode_elems(rest: Seq<u8>, count: int) -> Result<
    (Seq<RespV>, int),
    RespErrKind,
>
    decreases rest.len(), count,
{
    if count <= 0 {
        Ok((Seq::empty(), 0))
    } else {
        match spec_decode(rest) {
            Err(e) => Err(e),
            Ok((v, n)) => if 0 < n <= rest.len() {
                match spec_decode_elems(rest.skip(n), count - 1) {
                    Err(e) => Err(e),
                    Ok((vs, m)) => Ok((seq![v] + vs, n + m)),
                }
            } else {
                Err(RespErrKind::InvalidData)
            },
        }
    }
}

/// A successful decode consumes at least the prefix and a terminator, and
/// never more than the buffer holds.
pub proof fn lemma_spec_decode_bounds(b: Seq<u8>)
    ensures
        spec_decode(b) matches Ok((v, n)) ==> 3 <= n <= b.len(),
    decreases b.len(), 0int,
{
    if b.len() > 0 {
        let t = b.drop_first();
        lemma_find_crlf_props(t);
        if spec_kind_of(b[0]) == Some(Kind::Array) {
            if let Some(i) = spec_find_crlf(t) {
                if let Some(len) = crate::text::spec_parse_i64(t.take(i)) {
                    if len >= 0 {
                        lemma_spec_decode_elems_bounds(t.skip(i + 2), len as int);
                    }
                }
            }
        }
    }
}

pub proof fn lemma_spec_decode_elems_bounds(rest: Seq<u8>, count: int)
    ensures
        spec_decode_elems(rest, count) matches Ok((vs, m)) ==> 0 <= m <= rest.len()
            && vs.len() == if count <= 0 {
            0
        } else {
            count
        },
    decreases rest.len(), count,
{
    if count > 0 {
        lemma_spec_decode_bounds(rest);
        if let Ok((v, n)) = spec_decode(rest) {
            if 0 < n <= rest.len() {
                lemma_spec_decode_elems_bounds(rest.skip(n), count - 1);
            }
        }
    }
}

/// No CRLF pair occurs anywhere in `s`.
pub open spec fn no_crlf(s: Seq<u8>) -> bool {
    forall|j: int| !has_crlf_at(s, j)
}

/// The values the codec can encode so that decoding reads them back: a
/// Simple Status holds no CRLF pair, declared lengths fit a signed 64-bit
/// integer, and the absent value is the distinguished `Null` (an absent Bulk
/// encodes to the same five bytes and decodes as `Null`).
pub open spec fn encodable(v: RespV) -> bool
    decreases v,
{
    match v {
        RespV::SimpleString(s) => no_crlf(s),
        RespV::Integer(_) => true,
        RespV::Bulk(Some(p)) => p.len() <= i64::MAX,
        RespV::Bulk(None) => false,
        RespV::Array(items) => items.len() <= i64::MAX && encodable_list(items),
        RespV::Null => true,
    }
}

pub open spec fn encodable_list(items: Seq<RespV>) -> bool
    decreases items,
{
    if items.len() == 0 {
        true
    } else {
        encodable(items[0]) && encodable_list(items.drop_first())
    }
}

/// Digit runs hold no carriage return, so a framing CRLF after them is the
/// first one.
proof fn lemma_dec_no_crlf(n: int)
    ensures
        n >= 0 ==> no_crlf(crate::text::dec_nat(n)),
        no_crlf(dec_int(n)),
{
    if n >= 0 {
        crate::text::lemma_dec_nat_digits(n);
        assert forall|j: int| !has_crlf_at(dec_nat(n), j) by {
            if 0 <= j && j + 2 <= dec_nat(n).len() {
                assert(crate::text::is_digit(dec_nat(n)[j]));
            }
        }
    } else {
        crate::text::lemma_dec_nat_digits(-n);
        let d = dec_int(n);
        assert(d == seq![45u8] + dec_nat(-n));
        assert forall|j: int| !has_crlf_at(d, j) by {
            if 0 <= j && j + 2 <= d.len() {
                if j == 0 {
                    assert(d[0] == 45);
                } else {
                    assert(d[j] == dec_nat(-n)[j - 1]);
                    assert(crate::text::is_digit(dec_nat(-n)[j - 1]));
                }
            }
        }
    }
}

/// In `head + CRLF + tail` with no CRLF inside `head`, the framing CRLF is
/// the first one.
proof fn lemma_find_crlf_framed(head: Seq<u8>, tail: Seq<u8>)
    requires
        no_crlf(head),
    ensures
        spec_find_crlf(head + crlf() + tail) == Some(head.len() as int),
{
    let s = head + crlf() + tail;
    let h = head.len() as int;
    assert(s[h] == 13);
    assert(s[h + 1] == 10);
    assert(has_crlf_at(s, h));
    assert forall|j: int| 0 <= j < h implies !has_crlf_at(s, j) by {
        if j < h - 1 {
            assert(s[j] == head[j]);
            assert(s[j + 1] == head[j + 1]);
            assert(!has_crlf_at(head, j));
        } else {
            assert(s[j + 1] == 13);
        }
    }
    lemma_find_crlf_props(s);
    match spec_find_crlf(s) {
        Some(i) => {
            if i < h {
                assert(has_crlf_at(s, i));
            } else if i > h {
                assert(!has_crlf_at(s, h));
            }
        },
        None => {
            assert(!has_crlf_at(s, h));
        },
    }
}

/// The canonical numeral of an integer parses back to it.
proof fn lemma_parse_dec_int(i: i64)
    ensures
        crate::text::spec_parse_i64(dec_int(i as int)) == Some(i),
{
    if i >= 0 {
        crate::text::lemma_dec_nat_digits(i as int);
        let d = dec_nat(i as int);
        assert(crate::text::is_digit(d[0]));
        assert(d[0] != 43 && d[0] != 45);
        assert(dec_int(i as int) == d);
    } else {
        crate::text::lemma_dec_nat_digits(-(i as int));
        let m = dec_nat(-(i as int));
        let d = dec_int(i as int);
        assert(d == seq![45u8] + m);
        assert(d[0] == 45);
        assert(d.skip(1) =~= m);
        assert(crate::text::spec_parse_i64(d) == Some(i));
    }
}

/// The canonical numeral of a non-negative 64-bit value parses back to it.
proof fn lemma_parse_dec_nat(n: int)
    requires
        0 <= n <= i64::MAX,
    ensures
        crate::text::spec_parse_i64(dec_nat(n)) == Some(n as i64),
{
    crate::text::lemma_dec_nat_digits(n);
    let d = dec_nat(n);
    assert(crate::text::is_digit(d[0]));
    assert(d[0] != 43 && d[0] != 45);
}

/// Round trip: decoding the encoding of an encodable value, whatever bytes
/// follow it, yields that value and consumes exactly its encoding.
#[verifier::rlimit(100)]
pub proof fn lemma_decode_encode(v: RespV, rest: Seq<u8>)
    requires
        encodable(v),
    ensures
        spec_decode(spec_encode(v) + rest) == Ok::<(RespV, int), RespErrKind>(
            (v, spec_encode(v).len() as int),
        ),
    decreases v,
{
    let e = spec_encode(v);
    let b = e + rest;
    match v {
        RespV::SimpleString(s) => {
            assert(b[0] == 43);
            let t = b.drop_first();
            assert(t =~= s + crlf() + rest);
            lemma_find_crlf_framed(s, rest);
            assert(t.take(s.len() as int) =~= s);
            assert(spec_parse_string_at(t) == Ok::<(RespV, int), RespErrKind>(
                (RespV::SimpleString(s), s.len() as int + 2),
            ));
            assert(e.len() == 1 + s.len() + 2);
        },
        RespV::Integer(i) => {
            assert(b[0] == 58);
            let t = b.drop_first();
            let d = dec_int(i as int);
            assert(t =~= d + crlf() + rest);
            lemma_dec_no_crlf(i as int);
            lemma_find_crlf_framed(d, rest);
            assert(t.take(d.len() as int) =~= d);
            lemma_parse_dec_int(i);
            assert(e.len() == 1 + d.len() + 2);
        },
        RespV::Bulk(p_opt) => {
            let p = p_opt->0;
            assert(b[0] == 36);
            let t = b.drop_first();
            let d = dec_nat(p.len() as int);
            assert(t =~= d + crlf() + (p + crlf() + rest));
            lemma_dec_no_crlf(p.len() as int);
            lemma_find_crlf_framed(d, p + crlf() + rest);
            assert(t.take(d.len() as int) =~= d);
            lemma_parse_dec_nat(p.len() as int);
            let len = p.len() as int;
            let start = d.len() as int + 2;
            let end = start + len;
            assert(end + 2 <= t.len());
            assert(t[end] == 13) by {
                assert(t[end] == (p + crlf() + rest)[p.len() as int]);
            }
            assert(t[end + 1] == 10) by {
                assert(t[end + 1] == (p + crlf() + rest)[p.len() as int + 1]);
            }
            assert(t.subrange(start, end) =~= p);
            assert(e.len() == 1 + d.len() + 2 + p.len() + 2);
        },
        RespV::Array(items) => {
            assert(b[0] == 42);
            let t = b.drop_first();
            let d = dec_nat(items.len() as int);
            let el = spec_encode_list(items);
            assert(t =~= d + crlf() + (el + rest));
            lemma_dec_no_crlf(items.len() as int);
            lemma_find_crlf_framed(d, el + rest);
            assert(t.take(d.len() as int) =~= d);
            lemma_parse_dec_nat(items.len() as int);
            assert(t.skip(d.len() as int + 2) =~= el + rest);
            lemma_decode_encode_list(items, rest);
            assert(spec_decode_elems(el + rest, items.len() as int) == Ok::<
                (Seq<RespV>, int),
                RespErrKind,
            >((items, el.len() as int)));
            assert(e.len() == 1 + d.len() + 2 + el.len());
        },
        RespV::Null => {
            assert(b[0] == 36);
            let t = b.drop_first();
            assert(t[0] == 45);
            assert(t[1] == 49);
            assert(t[2] == 13);
            assert(t[3] == 10);
            lemma_find_crlf_props(t);
            assert(has_crlf_at(t, 2));
            match spec_find_crlf(t) {
                Some(i) => {
                    if i < 2 {
                        assert(has_crlf_at(t, i));
                        assert(i == 0 || i == 1);
                    } else if i > 2 {
                        assert(!has_crlf_at(t, 2));
                    }
                },
                None => {
                    assert(!has_crlf_at(t, 2));
                },
            }
            assert(spec_find_crlf(t) == Some(2int));
            let digits = t.take(2);
            assert(digits =~= seq![45u8, 49u8]);
            assert(crate::text::spec_parse_i64(digits) == Some(-1i64)) by {
                let ds = digits.skip(1);
                assert(ds =~= seq![49u8]);
                assert(crate::text::all_digits(ds));
                assert(ds.drop_last() =~= Seq::<u8>::empty());
                assert(crate::text::digits_val(Seq::<u8>::empty()) == 0);
                assert(ds.last() == 49);
                assert(crate::text::digits_val(ds) == crate::text::digits_val(ds.drop_last()) * 10
                    + (ds.last() - 48));
            }
            assert(e.len() == 5);
        },
    }
}

/// Round trip for a run of encoded values followed by arbitrary bytes.
pub proof fn lemma_decode_encode_list(items: Seq<RespV>, rest: Seq<u8>)
    requires
        encodable_list(items),
        items.len() <= i64::MAX,
    ensures
        spec_decode_elems(spec_encode_list(items) + rest, items.len() as int) == Ok::<
            (Seq<RespV>, int),
            RespErrKind,
        >((items, spec_encode_list(items).len() as int)),
    decreases items,
{
    let el = spec_encode_list(items);
    if items.len() == 0 {
        assert(el == Seq::<u8>::empty());
        assert(spec_decode_elems(el + rest, 0) == Ok::<(Seq<RespV>, int), RespErrKind>(
            (Seq::empty(), 0),
        ));
        assert(items =~= Seq::<RespV>::empty());
    } else {
        let head = items[0];
        let tail = items.drop_first();
        let e0 = spec_encode(head);
        let etail = spec_encode_list(tail);
        assert(el == e0 + etail);
        assert(el + rest =~= e0 + (etail + rest));
        lemma_decode_encode(head, etail + rest);
        let b = el + rest;
        assert(spec_decode(b) == Ok::<(RespV, int), RespErrKind>((head, e0.len() as int)));
        lemma_spec_decode_bounds(b);
        assert(3 <= e0.len() <= b.len());
        assert(b.skip(e0.len() as int) =~= etail + rest);
        lemma_decode_encode_list(tail, rest);
        assert(spec_decode_elems(etail + rest, tail.len() as int) == Ok::<
            (Seq<RespV>, int),
            RespErrKind,
        >((tail, etail.len() as int)));
        assert(seq![head] + tail =~= items);
        assert(spec_decode_elems(b, items.len() as int) == Ok::<(Seq<RespV>, int), RespErrKind>(
            (items, el.len() as int),
        ));
    }
}

/// The round trip of the codec: for every encodable value `v`, decoding
/// `encode(v)` yields `v` back and consumes exactly `encode(v).len()` bytes.
pub proof fn lemma_encode_decode_round_trip(v: RespV)
    requires
        encodable(v),
    ensures
        spec_decode(spec_encode(v)) == Ok::<(RespV, int), RespErrKind>(
            (v, spec_encode(v).len() as int),
        ),
{
    lemma_decode_encode(v, Seq::empty());
    assert(spec_encode(v) + Seq::<u8>::empty() =~= spec_encode(v));
}

/// Encoding to wire bytes.
pub trait RespEncoding {
    /// The bytes this value encodes to.
    spec fn encoding(&self) -> Seq<u8>;

    /// Produces exactly those bytes.
    fn encode(&self) -> (r: Vec<u8>)
        ensures
            r@ == self.encoding(),
    ;
}

impl RespEncoding for Resp {
    open spec fn encoding(&self) -> Seq<u8> {
        spec_encode(self@)
    }

    fn encode(&self) -> (r: Vec<u8>)
        decreases *self,
    {
        let mut r: Vec<u8> = Vec::new();
        match self {
            Resp::SimpleString(s) => {
                r.push(43);
                let mut payload = vstd::slice::slice_to_vec(s.as_slice());
                r.append(&mut payload);
                r.push(13);
                r.push(10);
                assert(r@ =~= spec_encode(self@));
            },
            Resp::Integer(i) => {
                r.push(58);
                let mut digits = i64_to_dec(*i);
                r.append(&mut digits);
                r.push(13);
                r.push(10);
                assert(r@ =~= spec_encode(self@));
            },
            Resp::Bulk(Some(p)) => {
                r.push(36);
                let mut len_digits = u64_to_dec(p.len() as u64);
                r.append(&mut len_digits);
                r.push(13);
                r.push(10);
                let mut payload = vstd::slice::slice_to_vec(p.as_slice());
                r.append(&mut payload);
                r.push(13);
                r.push(10);
                assert(r@ =~= spec_encode(self@));
            },
            Resp::Bulk(None) => {
                r.push(36);
                r.push(45);
                r.push(49);
                r.push(13);
                r.push(10);
                assert(r@ =~= spec_encode(self@));
            },
            Resp::Array(items) => {
                r.push(42);
                let mut len_digits = u64_to_dec(items.len() as u64);
                r.append(&mut len_digits);
                r.push(13);
                r.push(10);
                let ghost header = r@;
                let ghost views = self@->Array_0;
                proof {
                    lemma_resp_view_list(items@);
                }
                let mut i: usize = 0;
                while i < items.len()
                    invariant
                        0 <= i <= items.len(),
                        views.len() == items.len(),
                        forall|j: int| 0 <= j < items.len() ==> views[j] == resp_view(
                            #[trigger] items@[j],
                        ),
                        r@ == header + spec_encode_list(views.take(i as int)),
                        forall|j: int| 0 <= j < items.len() ==> decreases_to!(*self =>
                            #[trigger] items@[j]),
                    decreases items.len() - i,
                {
                    let mut piece = items[i].encode();
                    r.append(&mut piece);
                    proof {
                        lemma_encode_list_push(views.take(i as int), views[i as int]);
                        assert(views.take(i + 1) =~= views.take(i as int).push(views[i as int]));
                    }
                    i += 1;
                }
                assert(views.take(items.len() as int) =~= views);
                assert(r@ =~= spec_encode(self@));
            },
            Resp::Null => {
                r.push(36);
                r.push(45);
                r.push(49);
                r.push(13);
                r.push(10);
                assert(r@ =~= spec_encode(self@));
            },
        }
        r
    }
}

/// Whether an executable decode result is the one the specification gives.
pub open spec fn decode_result_matches(
    r: Result<(Resp, usize), RespError>,
    s: Result<(RespV, int), RespErrKind>,
) -> bool {
    match (r, s) {
        (Ok((v, n)), Ok((sv, sn))) => v@ == sv && n == sn,
        (Err(e), Err(k)) => e@ == k,
        _ => false,
    }
}

/// The index just past the first CRLF pair, as the original scanner reported
/// it; `None` when the buffer holds no CRLF.
#[verifier::loop_isolation(false)]
pub fn find_clrf_index(b: &[u8]) -> (r: Option<usize>)
    ensures
        match (r, spec_find_crlf(b@)) {
            (Some(n), Some(i)) => n == i + 2,
            (None, None) => true,
            _ => false,
        },
{
    proof {
        lemma_find_crlf_props(b@);
    }
    if b.len() < 2 {
        proof {
            if let Some(i) = spec_find_crlf(b@) {
                assert(has_crlf_at(b@, i));
            }
        }
        return None;
    }
    let mut j: usize = 0;
    while j + 1 < b.len()
        invariant
            0 <= j,
            j + 1 <= b@.len(),
            forall|k: int| 0 <= k < j ==> !has_crlf_at(b@, k),
        decreases b@.len() - j,
    {
        if b[j] == 13 && b[j + 1] == 10 {
            assert(has_crlf_at(b@, j as int));
            proof {
                match spec_find_crlf(b@) {
                    Some(i) => {
                        if i < j as int {
                            assert(!has_crlf_at(b@, i));
                        } else if i > j as int {
                            assert(!has_crlf_at(b@, j as int));
                        }
                    },
                    None => {
                        assert(!has_crlf_at(b@, j as int));
                    },
                }
            }
            return Some(j + 2);
        }
        j += 1;
    }
    proof {
        if let Some(i) = spec_find_crlf(b@) {
            assert(has_crlf_at(b@, i));
        }
    }
    None
}

/// Decodes a Simple Status from the bytes after its prefix.
fn parse_string(b: &[u8]) -> (r: Result<(Resp, usize), RespError>)
    ensures
        decode_result_matches(r, spec_parse_string_at(b@)),
{
    proof {
        lemma_find_crlf_props(b@);
    }
    match find_clrf_index(b) {
        None => Err(RespError::InvalidData("improperly terminated data payload")),
        Some(end) => {
            let payload = vstd::slice::slice_to_vec(vstd::slice::slice_subrange(b, 0, end - 2));
            assert(payload@ == b@.take(end - 2));
            Ok((Resp::SimpleString(payload), end))
        },
    }
}

/// Decodes an Integer from the bytes after its prefix.
fn parse_integer(b: &[u8]) -> (r: Result<(Resp, usize), RespError>)
    ensures
        decode_result_matches(r, spec_parse_integer_at(b@)),
{
    proof {
        lemma_find_crlf_props(b@);
    }
    match find_clrf_index(b) {
        None => Err(
            RespError::InvalidData("improperly terminated data payload for integer"),
        ),
        Some(end) => {
            let digits = vstd::slice::slice_subrange(b, 0, end - 2);
            assert(digits@ == b@.take(end - 2));
            match crate::text::parse_i64_bytes(digits) {
                None => Err(RespError::InvalidData("Invalid integer value")),
                Some(n) => Ok((Resp::Integer(n), end)),
            }
        },
    }
}

/// Decodes a Bulk from the bytes after its prefix: a signed length line,
/// then exactly that many raw bytes and a terminator. Length -1 is the
/// absent value.
fn parse_bulk(b: &[u8]) -> (r: Result<(Resp, usize), RespError>)
    ensures
        decode_result_matches(r, spec_parse_bulk_at(b@)),
{
    proof {
        lemma_find_crlf_props(b@);
    }
    let len_end = match find_clrf_index(b) {
        None => {
            return Err(
                RespError::InvalidData("CLRF not found in bulk string length specification"),
            );
        },
        Some(e) => e,
    };
    let digits = vstd::slice::slice_subrange(b, 0, len_end - 2);
    assert(digits@ == b@.take(len_end - 2));
    let len = match crate::text::parse_i64_bytes(digits) {
        None => {
            return Err(RespError::InvalidData("Invalid bulk string length"));
        },
        Some(n) => n,
    };
    if len == -1 {
        return Ok((Resp::Null, len_end));
    }
    if len < -1 {
        return Err(RespError::InvalidData("bulk string length cannot be < -1"));
    }
    let avail = b.len() - len_end;
    if (len as u64) > (avail as u64) {
        return Err(RespError::InvalidData("Improperly terminated data payload for bulk string"));
    }
    let len_u: usize = len as usize;
    if avail - len_u < 2 {
        return Err(RespError::InvalidData("Improperly terminated data payload for bulk string"));
    }
    let data_end = len_end + len_u;
    if !(b[data_end] == 13 && b[data_end + 1] == 10) {
        return Err(RespError::InvalidData("Improperly terminated data payload for bulk string"));
    }
    let data = vstd::slice::slice_to_vec(vstd::slice::slice_subrange(b, len_end, data_end));
    assert(data@ == b@.subrange(len_end as int, data_end as int));
    Ok((Resp::Bulk(Some(data)), data_end + 2))
}

/// Composes a run of already-decoded values with the outcome for the bytes
/// that remain.
pub open spec fn elems_continue(
    done: Seq<RespV>,
    used: int,
    r: Result<(Seq<RespV>, int), RespErrKind>,
) -> Result<(Seq<RespV>, int), RespErrKind> {
    match r {
        Ok((vs, m)) => Ok((done + vs, used + m)),
        Err(e) => Err(e),
    }
}

/// Decodes an Array from the bytes after its prefix: a signed length line,
/// then that many values in sequence.
#[verifier::loop_isolation(false)]
fn parse_array(b: &[u8]) -> (r: Result<(Resp, usize), RespError>)
    ensures
        decode_result_matches(r, spec_parse_array_at(b@)),
    decreases b@.len(), 2int,
{
    proof {
        lemma_find_crlf_props(b@);
    }
    let len_end = match find_clrf_index(b) {
        None => {
            return Err(RespError::InvalidData("CLRF not found in array length specification"));
        },
        Some(e) => e,
    };
    let digits = vstd::slice::slice_subrange(b, 0, len_end - 2);
    assert(digits@ == b@.take(len_end - 2));
    let len = match crate::text::parse_i64_bytes(digits) {
        None => {
            return Err(RespError::InvalidData("Invalid array length"));
        },
        Some(n) => n,
    };
    if len < -1 {
        return Err(RespError::InvalidData("array length cannot be < -1"));
    }
    if len == -1 {
        return Ok((Resp::Null, len_end));
    }
    let ghost t = b@;
    let ghost count = len as int;
    let ghost sub = t.skip(len_end as int);
    let mut items: Vec<Resp> = Vec::new();
    let mut rest: &[u8] = vstd::slice::slice_subrange(b, len_end, b.len());
    let mut consumed: usize = len_end;
    let mut k: u64 = 0;
    while k < len as u64
        invariant
            0 <= k <= len,
            0 <= len <= i64::MAX,
            len_end <= consumed <= t.len(),
            3 <= len_end,
            t == b@,
            count == len as int,
            sub == t.skip(len_end as int),
            rest@ == t.skip(consumed as int),
            resp_view_list(items@).len() == items@.len(),
            items@.len() == k,
            spec_decode_elems(sub, count) == elems_continue(
                resp_view_list(items@),
                consumed - len_end,
                spec_decode_elems(rest@, count - k),
            ),
        decreases len - k,
    {
        let prev_items_len = items.len();
        proof {
            lemma_resp_view_list(items@);
        }
        match parse_next_arr_value(rest) {
            Err(e) => {
                assert(spec_decode_elems(rest@, count - k) == Err::<(Seq<RespV>, int), RespErrKind>(
                    e@,
                ));
                return Err(e);
            },
            Ok((v, new_rest)) => {
                proof {
                    lemma_spec_decode_bounds(rest@);
                }
                let ghost n = spec_decode(rest@)->Ok_0.1;
                assert(3 <= n <= rest@.len());
                assert(new_rest@ == rest@.skip(n));
                assert(new_rest@.len() == rest@.len() - n);
                let step = rest.len() - new_rest.len();
                assert(step == n);
                assert(rest@.len() == t.len() - consumed);
                assert(consumed + step <= t.len());
                let ghost old_items = items@;
                let ghost old_rest = rest@;
                let ghost old_consumed = consumed as int;
                items.push(v);
                rest = new_rest;
                consumed = consumed + step;
                k = k + 1;
                proof {
                    lemma_resp_view_list(old_items);
                    lemma_resp_view_list(items@);
                    assert(items@ == old_items.push(v));
                    assert(resp_view_list(items@) =~= resp_view_list(old_items).push(v@)) by {
                        lemma_resp_view_list(items@);
                        assert forall|i: int| 0 <= i < items@.len() implies resp_view_list(
                            items@,
                        )[i] == resp_view_list(old_items).push(v@)[i] by {
                            if i < old_items.len() {
                                assert(items@[i] == old_items[i]);
                            } else {
                                assert(items@[i] == v);
                            }
                        }
                    }
                    assert(rest@ == t.skip(consumed as int)) by {
                        assert(old_rest == t.skip(old_consumed));
                        assert(old_rest.skip(n) =~= t.skip(old_consumed + n));
                    }
                    assert(spec_decode_elems(old_rest, count - (k - 1)) == (match spec_decode_elems(
                        old_rest.skip(n),
                        count - k,
                    ) {
                        Err(e) => Err::<(Seq<RespV>, int), RespErrKind>(e),
                        Ok((vs, m)) => Ok::<(Seq<RespV>, int), RespErrKind>(
                            (seq![v@] + vs, n + m),
                        ),
                    }));
                    assert(spec_decode_elems(sub, count) == elems_continue(
                        resp_view_list(items@),
                        consumed - len_end,
                        spec_decode_elems(rest@, count - k),
                    )) by {
                        match spec_decode_elems(rest@, count - k) {
                            Err(e) => {},
                            Ok((vs, m)) => {
                                assert(resp_view_list(old_items) + (seq![v@] + vs)
                                    =~= resp_view_list(items@) + vs);
                            },
                        }
                    }
                }
            },
        }
    }
    assert(spec_decode_elems(rest@, 0) == Ok::<(Seq<RespV>, int), RespErrKind>((Seq::empty(), 0)));
    proof {
        lemma_resp_view_list(items@);
        assert(resp_view_list(items@) + Seq::<RespV>::empty() =~= resp_view_list(items@));
    }
    assert(spec_decode_elems(sub, count) == Ok::<(Seq<RespV>, int), RespErrKind>(
        (resp_view_list(items@), consumed - len_end),
    ));
    Ok((Resp::Array(items), consumed))
}

/// Decodes the next value of an array and returns it with the bytes that
/// remain after it.
pub fn parse_next_arr_value<'a>(b: &'a [u8]) -> (r: Result<(Resp, &'a [u8]), RespError>)
    ensures
        match (r, spec_decode(b@)) {
            (Ok((v, rest)), Ok((sv, sn))) => v@ == sv && rest@ == b@.skip(sn),
            (Err(e), Err(k)) => e@ == k,
            _ => false,
        },
    decreases b@.len(), 1int,
{
    proof {
        lemma_spec_decode_bounds(b@);
    }
    match readnext_resp(b) {
        Err(e) => Err(e),
        Ok((v, n)) => {
            let rest = vstd::slice::slice_subrange(b, n, b.len());
            assert(rest@ == b@.skip(n as int));
            Ok((v, rest))
        },
    }
}

/// Decodes exactly one protocol value from the front of a buffer,
/// dispatching on the type-prefix byte, and reports how many bytes the value
/// occupied.
pub fn readnext_resp(b: &[u8]) -> (r: Result<(Resp, usize), RespError>)
    ensures
        decode_result_matches(r, spec_decode(b@)),
    decreases b@.len(), 0int,
{
    if b.len() == 0 {
        return Err(RespError::InvalidData("incoming bytestream empty"));
    }
    let resp_kind = match Kind::from_byte(b[0]) {
        None => {
            return Err(RespError::InvalidType("unrecognized datatype prefix byte"));
        },
        Some(k) => k,
    };
    let tail = vstd::slice::slice_subrange(b, 1, b.len());
    assert(tail@ == b@.drop_first());
    let sub = match resp_kind {
        Kind::SimpleString => parse_string(tail),
        Kind::Integer => parse_integer(tail),
        Kind::Bulk => parse_bulk(tail),
        Kind::Array => parse_array(tail),
        _ => {
            return Err(RespError::InvalidType("unsupported RESP type"));
        },
    };
    match sub {
        Err(e) => Err(e),
        Ok((v, n)) => {
            proof {
                match resp_kind {
                    Kind::SimpleString => {
                        lemma_find_crlf_props(tail@);
                    },
                    Kind::Integer => {
                        lemma_find_crlf_props(tail@);
                    },
                    Kind::Bulk => {
                        lemma_find_crlf_props(tail@);
                    },
                    Kind::Array => {
                        if let Ok((_, sn)) = spec_parse_array_at(tail@) {
                            lemma_find_crlf_props(tail@);
                            if let Some(i) = spec_find_crlf(tail@) {
                                if let Some(len) = crate::text::spec_parse_i64(tail@.take(i)) {
                                    if len >= 0 {
                                        lemma_spec_decode_elems_bounds(
                                            tail@.skip(i + 2),
                                            len as int,
                                        );
                                    }
                                }
                            }
                        }
                    },
                    _ => {},
                }
            }
            Ok((v, n + 1))
        },
    }
}

} // verus!
