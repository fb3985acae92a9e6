//! Byte-wise comparison and the text form of values.
use crate::cell::{RecordValue, Value};
use vstd::prelude::*;
use vstd::utf8::encode_utf8;

verus! {

/// Lexicographic order of byte strings: -1, 0 or 1.
pub open spec fn lex_cmp(a: Seq<u8>, b: Seq<u8>) -> int
    decreases a.len(),
{
    if a.len() == 0 {
        if b.len() == 0 {
            0
        } else {
            -1
        }
    } else if b.len() == 0 {
        1
    } else if a[0] < b[0] {
        -1
    } else if a[0] > b[0] {
        1
    } else {
        lex_cmp(a.drop_first(), b.drop_first())
    }
}

/// Where a text search key falls against an index key: NULLs and numbers sort
/// before text, blobs after it, and text compares byte-wise as UTF-8.
pub open spec fn key_cmp(search: Seq<u8>, k: Value) -> int {
    match k {
        Value::Text(cs) => lex_cmp(search, encode_utf8(cs)),
        Value::Blob(_) => -1,
        _ => 1,
    }
}

proof fn lemma_lex_cmp_skip(a: Seq<u8>, b: Seq<u8>, i: int)
    requires
        0 <= i < a.len(),
        i < b.len(),
        a[i] == b[i],
    ensures
        lex_cmp(a.skip(i), b.skip(i)) == lex_cmp(a.skip(i + 1), b.skip(i + 1)),
{
    assert(a.skip(i).drop_first() =~= a.skip(i + 1));
    assert(b.skip(i).drop_first() =~= b.skip(i + 1));
}

pub proof fn lemma_lex_cmp_eq(a: Seq<u8>, b: Seq<u8>)
    ensures
        lex_cmp(a, b) == 0 <==> a == b,
    decreases a.len(),
{
    if a.len() == 0 || b.len() == 0 {
        if a.len() != b.len() {
            assert(a != b);
        } else {
            assert(a =~= b);
        }
    } else if a[0] != b[0] {
        assert(a != b);
    } else {
        lemma_lex_cmp_eq(a.drop_first(), b.drop_first());
        if a.drop_first() == b.drop_first() {
            assert(a =~= seq![a[0]] + a.drop_first());
            assert(b =~= seq![b[0]] + b.drop_first());
        }
        if a == b {
            assert(a.drop_first() == b.drop_first());
        }
    }
}

/// Swapping the operands flips the order.
pub proof fn lemma_lex_cmp_antisym(a: Seq<u8>, b: Seq<u8>)
    ensures
        lex_cmp(a, b) == -lex_cmp(b, a),
    decreases a.len(),
{
    if a.len() > 0 && b.len() > 0 && a[0] == b[0] {
        lemma_lex_cmp_antisym(a.drop_first(), b.drop_first());
    }
}

/// Byte order is transitive.
pub proof fn lemma_lex_cmp_trans(a: Seq<u8>, b: Seq<u8>, c: Seq<u8>)
    requires
        lex_cmp(a, b) < 0,
        lex_cmp(b, c) < 0,
    ensures
        lex_cmp(a, c) < 0,
    decreases a.len(),
{
    if a.len() > 0 && b.len() > 0 && c.len() > 0 && a[0] == b[0] && b[0] == c[0] {
        lemma_lex_cmp_trans(a.drop_first(), b.drop_first(), c.drop_first());
    }
}

/// Compares `a` and `b` byte-wise.
pub fn compare_bytes(a: &[u8], b: &[u8]) -> (r: i8)
    ensures
        r as int == lex_cmp(a@, b@),
{
    let mut i: usize = 0;
    assert(a@.skip(0) =~= a@);
    assert(b@.skip(0) =~= b@);
    while i < a.len() && i < b.len()
        invariant
            i <= a@.len(),
            i <= b@.len(),
            lex_cmp(a@, b@) == lex_cmp(a@.skip(i as int), b@.skip(i as int)),
        decreases a@.len() - i,
    {
        if a[i] < b[i] {
            return -1;
        }
        if a[i] > b[i] {
            return 1;
        }
        proof {
            lemma_lex_cmp_skip(a@, b@, i as int);
        }
        i = i + 1;
    }
    if i < a.len() {
        1
    } else if i < b.len() {
        -1
    } else {
        0
    }
}

/// Whether `a` and `b` hold the same bytes.
pub fn bytes_equal(a: &[u8], b: &[u8]) -> (r: bool)
    ensures
        r == (a@ == b@),
{
    proof {
        lemma_lex_cmp_eq(a@, b@);
    }
    compare_bytes(a, b) == 0
}

/// Where the text `search` falls against the index key `k`.
pub fn compare_key(search: &[u8], k: &RecordValue) -> (r: i8)
    ensures
        r as int == key_cmp(search@, k@),
{
    match k {
        RecordValue::String(s) => compare_bytes(search, s.as_str().as_bytes()),
        RecordValue::Blob(_) => -1,
        _ => 1,
    }
}

/// The decimal digits of `n`.
pub open spec fn digits(n: nat) -> Seq<u8>
    decreases n,
{
    if n < 10 {
        seq![(48 + n) as u8]
    } else {
        digits(n / 10).push((48 + n % 10) as u8)
    }
}

/// `n` written in decimal, with a leading `-` when negative.
pub open spec fn decimal(n: int) -> Seq<u8> {
    if n < 0 {
        seq![45u8] + digits((-n) as nat)
    } else {
        digits(n as nat)
    }
}

/// Writes `n` in decimal.
pub fn decimal_bytes(n: i64) -> (r: Vec<u8>)
    ensures
        r@ == decimal(n as int),
{
    let m: u64 = if n < 0 {
        (-(n as i128)) as u64
    } else {
        n as u64
    };
    let mut out = digit_bytes(m);
    if n < 0 {
        out.insert(0, 45);
        assert(out@ =~= seq![45u8] + digits(m as nat));
    }
    out
}

/// Writes the decimal digits of `n`.
pub fn digit_bytes(n: u64) -> (r: Vec<u8>)
    ensures
        r@ == digits(n as nat),
{
    let mut m = n;
    let ghost whole = m as nat;
    let mut out: Vec<u8> = Vec::new();
    while m >= 10
        invariant
            digits(whole) == digits(m as nat) + out@,
        decreases m,
    {
        let d = (m % 10) as u8;
        proof {
            assert(digits(m as nat) == digits((m / 10) as nat).push((48 + m % 10) as u8));
            assert(digits((m / 10) as nat).push((48 + m % 10) as u8) + out@ =~= digits(
                (m / 10) as nat,
            ) + out@.insert(0, (48 + d) as u8));
        }
        out.insert(0, 48 + d);
        m = m / 10;
    }
    out.insert(0, 48 + m as u8);
    assert(digits(whole) =~= out@);
    out
}

/// The bytes of `"null"`.
pub open spec fn null_text() -> Seq<u8> {
    seq![110u8, 117, 108, 108]
}

/// The bytes of `"blob ("`, which open the text of a blob.
pub open spec fn blob_open() -> Seq<u8> {
    seq![98u8, 108, 111, 98, 32, 40]
}

/// The bytes of `" bytes)"`, which close the text of a blob.
pub open spec fn blob_close() -> Seq<u8> {
    seq![32u8, 98, 121, 116, 101, 115, 41]
}

/// How a value is shown: integers in decimal, text as its UTF-8 bytes, `null`,
/// and `blob (N bytes)`. A double has no text here.
pub open spec fn value_text(v: Value) -> Option<Seq<u8>> {
    match v {
        Value::Null => Some(null_text()),
        Value::Int(i) => Some(decimal(i)),
        Value::Real(_) => None,
        Value::Text(cs) => Some(encode_utf8(cs)),
        Value::Blob(b) => Some(blob_open() + decimal(b.len() as int) + blob_close()),
    }
}

/// Appends the bytes of `s` to `out`.
pub fn append_bytes(out: &mut Vec<u8>, s: &[u8])
    ensures
        final(out)@ == old(out)@ + s@,
{
    let mut i: usize = 0;
    while i < s.len()
        invariant
            i <= s@.len(),
            out@ == old(out)@ + s@.subrange(0, i as int),
        decreases s@.len() - i,
    {
        out.push(s[i]);
        i = i + 1;
        assert(out@ =~= old(out)@ + s@.subrange(0, i as int));
    }
    assert(s@.subrange(0, i as int) =~= s@);
}

/// The text of a value, or `None` for a double, whose text app code writes.
pub fn text_of(v: &RecordValue) -> (r: Option<Vec<u8>>)
    ensures
        match r {
            Some(t) => value_text(v@) == Some(t@),
            None => value_text(v@) is None,
        },
{
    match v {
        RecordValue::Null => {
            let mut r: Vec<u8> = Vec::new();
            r.push(110);
            r.push(117);
            r.push(108);
            r.push(108);
            assert(r@ =~= null_text());
            Some(r)
        },
        RecordValue::I8(x) => Some(decimal_bytes(*x as i64)),
        RecordValue::I16(x) => Some(decimal_bytes(*x as i64)),
        RecordValue::I24(x) => Some(decimal_bytes(*x as i64)),
        RecordValue::I32(x) => Some(decimal_bytes(*x as i64)),
        RecordValue::I48(x) => Some(decimal_bytes(*x)),
        RecordValue::I64(x) => Some(decimal_bytes(*x)),
        RecordValue::F64(_) => None,
        RecordValue::String(s) => {
            let mut r: Vec<u8> = Vec::new();
            append_bytes(&mut r, s.as_str().as_bytes());
            assert(r@ =~= encode_utf8(s@));
            Some(r)
        },
        RecordValue::Blob(b) => {
            let mut r: Vec<u8> = Vec::new();
            r.push(98);
            r.push(108);
            r.push(111);
            r.push(98);
            r.push(32);
            r.push(40);
            assert(r@ =~= blob_open());
            let n = digit_bytes(b.len() as u64);
            append_bytes(&mut r, n.as_slice());
            r.push(32);
            r.push(98);
            r.push(121);
            r.push(116);
            r.push(101);
            r.push(115);
            r.push(41);
            assert(r@ =~= blob_open() + decimal(b@.len() as int) + blob_close());
            Some(r)
        },
    }
}

/// The fields of a row joined by `|`.
pub open spec fn joined(fields: Seq<Seq<u8>>) -> Seq<u8>
    decreases fields.len(),
{
    if fields.len() == 0 {
        Seq::empty()
    } else if fields.len() == 1 {
        fields[0]
    } else {
        joined(fields.drop_last()) + seq![124u8] + fields.last()
    }
}

/// Joins the fields of a row with `|`.
pub fn join_fields(fields: &Vec<Vec<u8>>) -> (r: Vec<u8>)
    ensures
        r@ == joined(fields@.map_values(|f: Vec<u8>| f@)),
{
    let ghost fs = fields@.map_values(|f: Vec<u8>| f@);
    let mut out: Vec<u8> = Vec::new();
    let mut i: usize = 0;
    while i < fields.len()
        invariant
            i <= fields@.len(),
            fs == fields@.map_values(|f: Vec<u8>| f@),
            out@ == joined(fs.subrange(0, i as int)),
        decreases fields@.len() - i,
    {
        if i > 0 {
            out.push(124u8);
        }
        append_bytes(&mut out, fields[i].as_slice());
        proof {
            let s = fs.subrange(0, i + 1);
            assert(s.drop_last() =~= fs.subrange(0, i as int));
            if i == 0 {
                assert(out@ =~= joined(s));
            }
        }
        i = i + 1;
    }
    assert(fs.subrange(0, i as int) =~= fs);
    out
}

/// Whether `p` occurs in `s` as a run of bytes.
pub open spec fn contains_bytes(s: Seq<u8>, p: Seq<u8>) -> bool {
    exists|i: int| 0 <= i && i + p.len() <= s.len() && #[trigger] s.subrange(i, i + p.len()) == p
}

/// Whether `s` starts with `p`.
pub open spec fn starts_with(s: Seq<u8>, p: Seq<u8>) -> bool {
    p.len() <= s.len() && s.subrange(0, p.len() as int) == p
}

/// Whether `p` occurs at `i` in `s`.
fn occurs_at(s: &[u8], p: &[u8], i: usize) -> (r: bool)
    requires
        i + p@.len() <= s@.len(),
    ensures
        r == (s@.subrange(i as int, i + p@.len()) == p@),
{
    let len = s.len();
    let mut j: usize = 0;
    while j < p.len()
        invariant
            len == s@.len(),
            i + p@.len() <= s@.len(),
            j <= p@.len(),
            s@.subrange(i as int, i + j) == p@.subrange(0, j as int),
        decreases p@.len() - j,
    {
        if s[i + j] != p[j] {
            assert(s@.subrange(i as int, i + p@.len())[j as int] != p@[j as int]);
            return false;
        }
        assert(s@.subrange(i as int, i + j + 1) =~= p@.subrange(0, j + 1));
        j = j + 1;
    }
    assert(p@.subrange(0, j as int) =~= p@);
    true
}

/// Whether `p` occurs in `s`.
pub fn contains(s: &[u8], p: &[u8]) -> (r: bool)
    ensures
        r == contains_bytes(s@, p@),
{
    if p.len() > s.len() {
        return false;
    }
    if p.len() == 0 {
        assert(s@.subrange(0, 0 + p@.len() as int) =~= p@);
        return true;
    }
    let mut i: usize = 0;
    while i <= s.len() - p.len()
        invariant
            p@.len() > 0,
            p@.len() <= s@.len(),
            i <= s@.len() - p@.len() + 1,
            forall|k: int| 0 <= k < i ==> #[trigger] s@.subrange(k, k + p@.len()) != p@,
        decreases s@.len() - i,
    {
        if occurs_at(s, p, i) {
            return true;
        }
        i = i + 1;
    }
    false
}

/// Whether `s` starts with `p`.
pub fn has_prefix(s: &[u8], p: &[u8]) -> (r: bool)
    ensures
        r == starts_with(s@, p@),
{
    if p.len() > s.len() {
        return false;
    }
    occurs_at(s, p, 0)
}

} // verus!
