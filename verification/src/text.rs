//! Byte-level text helpers shared by the codec and the command parser:
//! ASCII case folding, byte-sequence comparison, and decimal numerals.
use vstd::prelude::*;

verus! {

/// ASCII upper-casing of one byte; other bytes are unchanged.
pub open spec fn upper_byte(b: u8) -> u8 {
    if 97 <= b <= 122 {
        (b - 32) as u8
    } else {
        b
    }
}

/// ASCII lower-casing of one byte; other bytes are unchanged.
pub open spec fn lower_byte(b: u8) -> u8 {
    if 65 <= b <= 90 {
        (b + 32) as u8
    } else {
        b
    }
}

pub open spec fn upper_seq(s: Seq<u8>) -> Seq<u8> {
    s.map_values(|b: u8| upper_byte(b))
}

pub open spec fn lower_seq(s: Seq<u8>) -> Seq<u8> {
    s.map_values(|b: u8| lower_byte(b))
}

/// Exact byte-for-byte equality of two byte slices.
pub fn bytes_eq(a: &[u8], b: &[u8]) -> (r: bool)
    ensures
        r == (a@ == b@),
{
    if a.len() != b.len() {
        assert(a@ != b@) by {
            assert(a@.len() != b@.len());
        }
        return false;
    }
    let mut i: usize = 0;
    while i < a.len()
        invariant
            0 <= i <= a.len(),
            a.len() == b.len(),
            forall|j: int| 0 <= j < i ==> a@[j] == b@[j],
        decreases a.len() - i,
    {
        if a[i] != b[i] {
            return false;
        }
        i += 1;
    }
    assert(a@ =~= b@);
    true
}

/// Decimal digits.
pub open spec fn is_digit(b: u8) -> bool {
    48 <= b <= 57
}

pub open spec fn all_digits(s: Seq<u8>) -> bool {
    forall|i: int| 0 <= i < s.len() ==> is_digit(#[trigger] s[i])
}

/// The value of a sequence of decimal digits, most significant first.
pub open spec fn digits_val(s: Seq<u8>) -> int
    decreases s.len(),
{
    if s.len() == 0 {
        0
    } else {
        digits_val(s.drop_last()) * 10 + (s.last() - 48)
    }
}

/// The canonical decimal numeral of a non-negative integer.
pub open spec fn dec_nat(n: int) -> Seq<u8>
    decreases n,
{
    if n < 10 {
        seq![(48 + if n >= 0 { n } else { 0 }) as u8]
    } else {
        dec_nat(n / 10).push((48 + n % 10) as u8)
    }
}

/// The canonical decimal numeral of an integer, minus sign included.
pub open spec fn dec_int(n: int) -> Seq<u8> {
    if n < 0 {
        seq![45u8] + dec_nat(-n)
    } else {
        dec_nat(n)
    }
}

pub proof fn lemma_digits_val_nonneg(s: Seq<u8>)
    requires
        all_digits(s),
    ensures
        digits_val(s) >= 0,
    decreases s.len(),
{
    if s.len() > 0 {
        assert(all_digits(s.drop_last())) by {
            assert(forall|i: int|
                0 <= i < s.len() - 1 ==> is_digit(#[trigger] s.drop_last()[i]) == is_digit(s[i]));
        }
        lemma_digits_val_nonneg(s.drop_last());
    }
}

pub proof fn lemma_dec_nat_digits(n: int)
    requires
        n >= 0,
    ensures
        dec_nat(n).len() >= 1,
        all_digits(dec_nat(n)),
        digits_val(dec_nat(n)) == n,
    decreases n,
{
    if n < 10 {
        assert(dec_nat(n) =~= seq![(48 + n) as u8]);
        assert(digits_val(dec_nat(n)) == digits_val(dec_nat(n).drop_last()) * 10 + (48 + n - 48));
        assert(dec_nat(n).drop_last() =~= Seq::<u8>::empty());
    } else {
        lemma_dec_nat_digits(n / 10);
        let d = dec_nat(n / 10);
        assert(dec_nat(n) == d.push((48 + n % 10) as u8));
        assert(dec_nat(n).drop_last() =~= d);
        assert(dec_nat(n).last() == (48 + n % 10) as u8);
        assert(digits_val(dec_nat(n)) == (n / 10) * 10 + n % 10);
        assert((n / 10) * 10 + n % 10 == n) by (nonlinear_arith)
            requires n >= 10;
        assert(forall|i: int| 0 <= i < d.len() ==> is_digit(#[trigger] dec_nat(n)[i]));
    }
}

/// A digit sequence extended by one digit keeps at least its value.
pub proof fn lemma_digits_val_take_monotone(s: Seq<u8>, k: int)
    requires
        all_digits(s),
        0 <= k <= s.len(),
    ensures
        digits_val(s.take(k)) <= digits_val(s),
    decreases s.len() - k,
{
    if k < s.len() {
        lemma_digits_val_take_monotone(s, k + 1);
        let t = s.take(k + 1);
        assert(t.drop_last() =~= s.take(k));
        assert(digits_val(t) == digits_val(s.take(k)) * 10 + (s[k] - 48));
        assert(all_digits(s.take(k))) by {
            assert(forall|i: int|
                0 <= i < k ==> is_digit(#[trigger] s.take(k)[i]) == is_digit(s[i]));
        }
        lemma_digits_val_nonneg(s.take(k));
        assert(digits_val(s.take(k)) * 10 >= digits_val(s.take(k))) by (nonlinear_arith)
            requires digits_val(s.take(k)) >= 0;
    } else {
        assert(s.take(k) =~= s);
    }
}

/// Rust-style parse of an unsigned 64-bit decimal: an optional leading `+`,
/// then one or more digits; `None` on an empty digit run, a stray byte, or
/// overflow.
pub open spec fn spec_parse_u64(s: Seq<u8>) -> Option<u64> {
    let ds = if s.len() > 0 && s[0] == 43 {
        s.skip(1)
    } else {
        s
    };
    if ds.len() > 0 && all_digits(ds) && digits_val(ds) <= u64::MAX {
        Some(digits_val(ds) as u64)
    } else {
        None
    }
}

/// Rust-style parse of a signed 64-bit decimal: an optional leading `+` or
/// `-`, then one or more digits; `None` on an empty digit run, a stray byte,
/// or overflow.
pub open spec fn spec_parse_i64(s: Seq<u8>) -> Option<i64> {
    let neg = s.len() > 0 && s[0] == 45;
    let ds = if s.len() > 0 && (s[0] == 43 || s[0] == 45) {
        s.skip(1)
    } else {
        s
    };
    if ds.len() > 0 && all_digits(ds) {
        let v = if neg {
            -digits_val(ds)
        } else {
            digits_val(ds)
        };
        if i64::MIN <= v <= i64::MAX {
            Some(v as i64)
        } else {
            None
        }
    } else {
        None
    }
}

/// Accumulates the value of the digits `s[from..]`, so long as it stays below
/// `limit`; used by both decimal parsers.
fn digits_to_val(s: &[u8], from: usize, limit: u64) -> (r: Option<u64>)
    requires
        0 <= from <= s@.len(),
        limit >= 9,
    ensures
        match r {
            Some(v) => {
                &&& s@.skip(from as int).len() > 0
                &&& all_digits(s@.skip(from as int))
                &&& digits_val(s@.skip(from as int)) == v
                &&& v <= limit
            },
            None => {
                let ds = s@.skip(from as int);
                ds.len() == 0 || !all_digits(ds) || digits_val(ds) > limit
            },
        },
{
    let ghost ds = s@.skip(from as int);
    if from == s.len() {
        return None;
    }
    let mut acc: u64 = 0;
    let mut j: usize = from;
    while j < s.len()
        invariant
            from <= j <= s@.len(),
            ds == s@.skip(from as int),
            all_digits(ds.take(j - from)),
            digits_val(ds.take(j - from)) == acc,
            acc <= limit,
            9 <= limit <= u64::MAX,
        decreases s@.len() - j,
    {
        let b = s[j];
        assert(b == ds[j - from]);
        if !(48 <= b && b <= 57) {
            assert(!all_digits(ds));
            return None;
        }
        let d: u64 = (b - 48) as u64;
        proof {
            let t = ds.take(j - from + 1);
            assert(t.drop_last() =~= ds.take(j - from));
            assert(t.last() == b);
            assert(digits_val(t) == acc * 10 + d);
        }
        if acc > (limit - d) / 10 {
            proof {
                assert(acc * 10 + d > limit) by (nonlinear_arith)
                    requires acc > (limit - d) / 10, 0 <= d <= limit, acc >= 0;
                if all_digits(ds) {
                    lemma_digits_val_take_monotone(ds, j - from + 1);
                }
            }
            return None;
        }
        proof {
            assert(acc * 10 + d <= limit) by (nonlinear_arith)
                requires acc <= (limit - d) / 10, 0 <= d <= limit, acc >= 0;
        }
        acc = acc * 10 + d;
        j += 1;
    }
    assert(ds.take(j - from) =~= ds);
    Some(acc)
}

/// Parses an unsigned 64-bit decimal, exactly as `spec_parse_u64` describes.
pub fn parse_u64_bytes(s: &[u8]) -> (r: Option<u64>)
    ensures
        r == spec_parse_u64(s@),
{
    let from: usize = if s.len() > 0 && s[0] == 43 {
        1
    } else {
        0
    };
    let r = digits_to_val(s, from, u64::MAX);
    proof {
        let ds = s@.skip(from as int);
        if from == 0 {
            assert(ds =~= s@);
        }
        if ds.len() > 0 && all_digits(ds) {
            lemma_digits_val_nonneg(ds);
        }
    }
    r
}

/// Parses a signed 64-bit decimal, exactly as `spec_parse_i64` describes.
pub fn parse_i64_bytes(s: &[u8]) -> (r: Option<i64>)
    ensures
        r == spec_parse_i64(s@),
{
    let neg = s.len() > 0 && s[0] == 45;
    let from: usize = if s.len() > 0 && (s[0] == 43 || s[0] == 45) {
        1
    } else {
        0
    };
    let limit: u64 = if neg {
        9223372036854775808
    } else {
        9223372036854775807
    };
    let r = digits_to_val(s, from, limit);
    proof {
        let ds = s@.skip(from as int);
        if from == 0 {
            assert(ds =~= s@);
        }
        if ds.len() > 0 && all_digits(ds) {
            lemma_digits_val_nonneg(ds);
        }
    }
    match r {
        None => None,
        Some(v) => {
            if neg {
                if v == 9223372036854775808 {
                    Some(i64::MIN)
                } else {
                    Some(-(v as i64))
                }
            } else {
                Some(v as i64)
            }
        },
    }
}

/// Renders an unsigned 64-bit integer as its canonical decimal numeral.
pub fn u64_to_dec(n: u64) -> (r: Vec<u8>)
    ensures
        r@ == dec_nat(n as int),
    decreases n,
{
    if n < 10 {
        let mut v: Vec<u8> = Vec::new();
        v.push(48 + n as u8);
        assert(v@ =~= dec_nat(n as int));
        v
    } else {
        let mut v = u64_to_dec(n / 10);
        v.push(48 + (n % 10) as u8);
        assert(v@ =~= dec_nat(n as int));
        v
    }
}

/// Renders a signed 64-bit integer as its canonical decimal numeral.
pub fn i64_to_dec(n: i64) -> (r: Vec<u8>)
    ensures
        r@ == dec_int(n as int),
{
    if n >= 0 {
        u64_to_dec(n as u64)
    } else {
        let mag: u64 = ((-(n + 1)) as u64) + 1;
        let mut v: Vec<u8> = Vec::new();
        v.push(45);
        let mut d = u64_to_dec(mag);
        v.append(&mut d);
        assert(v@ =~= seq![45u8] + dec_nat(-(n as int)));
        v
    }
}

/// Whether `a`, upper-cased byte by byte, equals `b` exactly.
pub fn eq_ignore_case_upper(a: &[u8], b: &[u8]) -> (r: bool)
    ensures
        r == (upper_seq(a@) == b@),
{
    if a.len() != b.len() {
        assert(upper_seq(a@) != b@) by {
            assert(upper_seq(a@).len() != b@.len());
        }
        return false;
    }
    let mut i: usize = 0;
    while i < a.len()
        invariant
            0 <= i <= a.len(),
            a.len() == b.len(),
            forall|j: int| 0 <= j < i ==> upper_byte(a@[j]) == b@[j],
        decreases a.len() - i,
    {
        let c = a[i];
        let u = if 97 <= c && c <= 122 {
            c - 32
        } else {
            c
        };
        if u != b[i] {
            assert(upper_seq(a@)[i as int] != b@[i as int]);
            return false;
        }
        i += 1;
    }
    assert(upper_seq(a@) =~= b@);
    true
}

/// Whether `a`, lower-cased byte by byte, equals `b` exactly.
pub fn eq_ignore_case_lower(a: &[u8], b: &[u8]) -> (r: bool)
    ensures
        r == (lower_seq(a@) == b@),
{
    if a.len() != b.len() {
        assert(lower_seq(a@) != b@) by {
            assert(lower_seq(a@).len() != b@.len());
        }
        return false;
    }
    let mut i: usize = 0;
    while i < a.len()
        invariant
            0 <= i <= a.len(),
            a.len() == b.len(),
            forall|j: int| 0 <= j < i ==> lower_byte(a@[j]) == b@[j],
        decreases a.len() - i,
    {
        let c = a[i];
        let l = if 65 <= c && c <= 90 {
            c + 32
        } else {
            c
        };
        if l != b[i] {
            assert(lower_seq(a@)[i as int] != b@[i as int]);
            return false;
        }
        i += 1;
    }
    assert(lower_seq(a@) =~= b@);
    true
}

} // verus!
