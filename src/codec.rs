//! SQLite varints and big-endian integers.
use crate::error::SqliteError;
use vstd::prelude::*;

verus! {

/// `128^n`.
pub open spec fn pow128(n: nat) -> nat
    decreases n,
{
    if n == 0 {
        1
    } else {
        128 * pow128((n - 1) as nat)
    }
}

/// The number of bytes of the varint at the start of `s`, looking at byte `i`
/// onwards: one past the first of the first eight bytes whose high bit is clear,
/// else 9. Where `s` ends before that byte, the result is past its end.
pub open spec fn varint_len_from(s: Seq<u8>, i: nat) -> nat
    decreases 8 - i,
{
    if i >= 8 || i >= s.len() {
        9
    } else if s[i as int] < 0x80 {
        i + 1
    } else {
        varint_len_from(s, i + 1)
    }
}

pub open spec fn varint_len(s: Seq<u8>) -> nat {
    varint_len_from(s, 0)
}

/// The integer formed by the first `n` bytes of a varint: seven low bits of
/// each of the first eight bytes, all eight bits of the ninth.
pub open spec fn varint_acc(s: Seq<u8>, n: nat) -> nat
    decreases n,
{
    if n == 0 {
        0
    } else if n == 9 {
        varint_acc(s, 8) * 256 + s[8] as nat
    } else {
        varint_acc(s, (n - 1) as nat) * 128 + (s[n - 1] as nat) % 128
    }
}

/// The value of the varint at the start of `s`, as a two's complement 64-bit
/// integer.
pub open spec fn varint_value(s: Seq<u8>) -> i64 {
    varint_acc(s, varint_len(s)) as i64
}

pub proof fn lemma_varint_len_skip(s: Seq<u8>, i: nat)
    requires
        i <= 8,
        i <= s.len(),
        forall|k: int| 0 <= k < i ==> s[k] >= 0x80,
    ensures
        varint_len(s) == varint_len_from(s, i),
    decreases i,
{
    if i > 0 {
        lemma_varint_len_skip(s, (i - 1) as nat);
        assert(s[i - 1] >= 0x80);
    }
}

/// Reads the varint that starts at `pos` in `buf`. Returns its value and the
/// number of bytes it takes.
pub fn read_varint(buf: &[u8], pos: usize) -> (r: Result<(i64, usize), SqliteError>)
    requires
        pos <= buf@.len(),
    ensures
        r is Ok <==> varint_len(buf@.skip(pos as int)) <= buf@.len() - pos,
        r is Err ==> r->Err_0 == SqliteError::DecodeTruncated,
        r is Ok ==> r->Ok_0.1 == varint_len(buf@.skip(pos as int)) && r->Ok_0.0 == varint_value(
            buf@.skip(pos as int),
        ),
{
    let ghost s = buf@.skip(pos as int);
    let mut v: u64 = 0;
    let mut i: usize = 0;
    while i < 9
        invariant
            s == buf@.skip(pos as int),
            pos <= buf@.len(),
            i <= 8,
            i <= s.len(),
            forall|k: int| 0 <= k < i ==> s[k] >= 0x80,
            v as nat == varint_acc(s, i as nat),
            v < pow128(i as nat),
        decreases 9 - i,
    {
        proof {
            lemma_varint_len_skip(s, i as nat);
        }
        if i >= buf.len() - pos {
            return Err(SqliteError::DecodeTruncated);
        }
        let b = buf[pos + i];
        assert(b == s[i as int]);
        if i == 8 {
            proof {
                lemma_pow_values();
            }
            let w = v * 256 + b as u64;
            return Ok((w as i64, 9));
        }
        proof {
            assert(v * 128 + (b % 128) < pow128(i as nat) * 128) by (nonlinear_arith)
                requires
                    v < pow128(i as nat),
                    b % 128 < 128,
            ;
            assert(pow128((i + 1) as nat) == 128 * pow128(i as nat));
            lemma_pow128_le(i as nat + 1, 8);
            lemma_pow_values();
        }
        v = v * 128 + (b % 128) as u64;
        if b < 0x80 {
            return Ok((v as i64, i + 1));
        }
        i = i + 1;
    }
    Err(SqliteError::DecodeTruncated)
}

/// Decodes the varint at the start of `buf`: its value and its length in
/// bytes, which is one past the first byte whose high bit is clear, or 9,
/// whichever is smaller.
pub fn parse_varint(buf: &[u8]) -> (r: Result<(i64, usize), SqliteError>)
    ensures
        r is Ok <==> varint_len(buf@) <= buf@.len(),
        r is Err ==> r->Err_0 == SqliteError::DecodeTruncated,
        r is Ok ==> r->Ok_0.1 == varint_len(buf@) && r->Ok_0.0 == varint_value(buf@),
        r is Ok ==> 1 <= r->Ok_0.1 <= 9 && (forall|k: int|
            0 <= k < r->Ok_0.1 - 1 ==> buf@[k] >= 0x80) && (r->Ok_0.1 < 9 ==> buf@[r->Ok_0.1
            - 1] < 0x80),
{
    assert(buf@.skip(0) =~= buf@);
    let r = read_varint(buf, 0);
    proof {
        if r is Ok {
            lemma_varint_len_shape(buf@, 0);
        }
    }
    r
}

/// A varint takes between one and nine bytes.
pub proof fn lemma_varint_len_bounds(s: Seq<u8>, i: nat)
    requires
        i <= 8,
    ensures
        i < varint_len_from(s, i) <= 9,
    decreases 8 - i,
{
    if i < 8 && i < s.len() && s[i as int] >= 0x80 {
        lemma_varint_len_bounds(s, i + 1);
    }
}

/// The length that `varint_len_from` gives is the first byte with its high bit
/// clear, or 9.
pub proof fn lemma_varint_len_shape(s: Seq<u8>, i: nat)
    requires
        i <= 8,
        varint_len_from(s, i) <= s.len(),
    ensures
        i < varint_len_from(s, i) <= 9,
        forall|k: int| i <= k < varint_len_from(s, i) - 1 ==> s[k] >= 0x80,
        varint_len_from(s, i) < 9 ==> s[varint_len_from(s, i) - 1] < 0x80,
    decreases 8 - i,
{
    if i < 8 && i < s.len() && s[i as int] >= 0x80 {
        lemma_varint_len_shape(s, i + 1);
    }
}

/// `s` read as an unsigned big-endian integer.
pub open spec fn be_unsigned(s: Seq<u8>) -> nat
    decreases s.len(),
{
    if s.len() == 0 {
        0
    } else {
        be_unsigned(s.drop_last()) * 256 + s.last() as nat
    }
}

/// `256^n`.
pub open spec fn pow256(n: nat) -> nat
    decreases n,
{
    if n == 0 {
        1
    } else {
        256 * pow256((n - 1) as nat)
    }
}

/// `s` read as a two's complement big-endian integer.
pub open spec fn be_signed(s: Seq<u8>) -> int {
    if s.len() > 0 && s[0] >= 0x80 {
        be_unsigned(s) - pow256(s.len())
    } else {
        be_unsigned(s) as int
    }
}

proof fn lemma_be_unsigned_bound(s: Seq<u8>)
    ensures
        be_unsigned(s) < pow256(s.len()),
    decreases s.len(),
{
    if s.len() > 0 {
        lemma_be_unsigned_bound(s.drop_last());
        let a = be_unsigned(s.drop_last());
        let p = pow256(s.drop_last().len());
        assert(a * 256 + s.last() < p * 256) by (nonlinear_arith)
            requires
                a < p,
                s.last() < 256,
        ;
    }
}

proof fn lemma_be_first_byte(s: Seq<u8>)
    requires
        s.len() > 0,
    ensures
        s[0] >= 0x80 <==> 2 * be_unsigned(s) >= pow256(s.len()),
    decreases s.len(),
{
    let t = s.drop_last();
    let a = be_unsigned(t);
    let p = pow256(t.len());
    assert(be_unsigned(s) == a * 256 + s.last());
    assert(pow256(s.len()) == 256 * p);
    if s.len() == 1 {
        assert(t.len() == 0);
        assert(a == 0);
        assert(s.last() == s[0]);
    } else {
        lemma_be_first_byte(t);
        lemma_be_unsigned_bound(t);
        assert(t[0] == s[0]);
        let q = pow256((t.len() - 1) as nat);
        assert(p == 256 * q);
        assert(2 * a >= p <==> 2 * (a * 256 + s.last()) >= 256 * p) by (nonlinear_arith)
            requires
                s.last() < 256,
                p == 256 * q,
        ;
    }
}

/// The powers that bound the integer widths.
pub proof fn lemma_pow_values()
    ensures
        pow256(1) == 0x100,
        pow256(2) == 0x1_0000,
        pow256(3) == 0x100_0000,
        pow256(6) == 0x1_0000_0000_0000,
        pow128(7) == 0x2_0000_0000_0000,
        pow128(8) == 0x100_0000_0000_0000,
        pow256(4) == 0x1_0000_0000,
        pow256(8) == 0x1_0000_0000_0000_0000,
{
    reveal_with_fuel(pow128, 9);
    reveal_with_fuel(pow256, 9);
}

proof fn lemma_pow128_le(a: nat, b: nat)
    requires
        a <= b,
    ensures
        pow128(a) <= pow128(b),
    decreases b,
{
    if a < b {
        lemma_pow128_le(a, (b - 1) as nat);
    }
}

/// A signed big-endian integer of `n` bytes lies in `[-256^n / 2, 256^n / 2)`.
pub proof fn lemma_be_signed_range(s: Seq<u8>)
    requires
        s.len() > 0,
    ensures
        -pow256(s.len()) <= 2 * be_signed(s) < pow256(s.len()),
{
    lemma_be_first_byte(s);
    lemma_be_unsigned_bound(s);
}

/// Reads `n` bytes at `pos` of `buf` as a two's complement big-endian integer.
pub fn read_be_signed(buf: &[u8], pos: usize, n: usize) -> (r: i64)
    requires
        1 <= n <= 8,
        pos + n <= buf@.len(),
    ensures
        r as int == be_signed(buf@.subrange(pos as int, pos + n)),
{
    let ghost s = buf@.subrange(pos as int, pos + n);
    let len = buf.len();
    let mut v: u64 = 0;
    let mut i: usize = 0;
    while i < n
        invariant
            s == buf@.subrange(pos as int, pos + n),
            len == buf@.len(),
            1 <= n <= 8,
            pos + n <= buf@.len(),
            i <= n,
            v as nat == be_unsigned(s.subrange(0, i as int)),
            v < pow256(i as nat),
        decreases n - i,
    {
        let b = buf[pos + i];
        proof {
            assert(s.subrange(0, i + 1).drop_last() =~= s.subrange(0, i as int));
            assert(v * 256 + b < pow256(i as nat) * 256) by (nonlinear_arith)
                requires
                    v < pow256(i as nat),
                    b < 256,
            ;
            lemma_pow256_le(i as nat + 1, 8);
            lemma_pow_values();
        }
        v = v * 256 + b as u64;
        i = i + 1;
    }
    assert(s.subrange(0, n as int) =~= s);
    proof {
        lemma_be_first_byte(s);
        lemma_be_unsigned_bound(s);
        lemma_pow256_le(n as nat, 8);
        lemma_pow_values();
    }
    let wide: i128 = if buf[pos] >= 0x80 {
        v as i128 - pow256_exec(n)
    } else {
        v as i128
    };
    wide as i64
}

pub proof fn lemma_pow256_le(a: nat, b: nat)
    requires
        a <= b,
    ensures
        pow256(a) <= pow256(b),
    decreases b,
{
    if a < b {
        lemma_pow256_le(a, (b - 1) as nat);
    }
}

fn pow256_exec(n: usize) -> (r: i128)
    requires
        n <= 8,
    ensures
        r == pow256(n as nat),
{
    let mut r: i128 = 1;
    let mut i: usize = 0;
    while i < n
        invariant
            i <= n <= 8,
            r == pow256(i as nat),
        decreases n - i,
    {
        proof {
            lemma_pow256_le(i as nat + 1, 8);
            lemma_pow_values();
        }
        r = r * 256;
        i = i + 1;
    }
    r
}

/// Reads the unsigned big-endian integer of `n` bytes at `pos` of `buf`.
pub fn read_be_unsigned(buf: &[u8], pos: usize, n: usize) -> (r: u64)
    requires
        1 <= n <= 8,
        pos + n <= buf@.len(),
    ensures
        r as nat == be_unsigned(buf@.subrange(pos as int, pos + n)),
        r < pow256(n as nat),
{
    let ghost s = buf@.subrange(pos as int, pos + n);
    let len = buf.len();
    let mut v: u64 = 0;
    let mut i: usize = 0;
    while i < n
        invariant
            s == buf@.subrange(pos as int, pos + n),
            len == buf@.len(),
            1 <= n <= 8,
            pos + n <= buf@.len(),
            i <= n,
            v as nat == be_unsigned(s.subrange(0, i as int)),
            v < pow256(i as nat),
        decreases n - i,
    {
        let b = buf[pos + i];
        proof {
            assert(s.subrange(0, i + 1).drop_last() =~= s.subrange(0, i as int));
            assert(v * 256 + b < pow256(i as nat) * 256) by (nonlinear_arith)
                requires
                    v < pow256(i as nat),
                    b < 256,
            ;
            lemma_pow256_le(i as nat + 1, 8);
            lemma_pow_values();
        }
        v = v * 256 + b as u64;
        i = i + 1;
    }
    assert(s.subrange(0, n as int) =~= s);
    v
}

/// The fewest bytes, from `n` up to 8, whose seven-bit groups hold `v`; 9
/// where eight do not.
pub open spec fn varint_width_from(v: nat, n: nat) -> nat
    decreases 9 - n,
{
    if n >= 9 {
        9
    } else if v < pow128(n) {
        n
    } else {
        varint_width_from(v, n + 1)
    }
}

pub open spec fn varint_width(v: nat) -> nat {
    varint_width_from(v, 1)
}

/// The varint encoding of `v`: its seven-bit groups, high first, each but the
/// last with the high bit set; a value of more than 56 bits takes eight such
/// groups of its high 56 bits and then its low byte whole.
pub open spec fn varint_bytes(v: nat) -> Seq<u8> {
    let n = varint_width(v);
    if n == 9 {
        Seq::new(
            9,
            |k: int|
                if k < 8 {
                    ((v / 256) / pow128((7 - k) as nat) % 128 + 128) as u8
                } else {
                    (v % 256) as u8
                },
        )
    } else {
        Seq::new(
            n,
            |k: int|
                (v / pow128((n - 1 - k) as nat) % 128 + if k < n - 1 {
                    128int
                } else {
                    0int
                }) as u8,
        )
    }
}

proof fn lemma_width(v: nat, n: nat)
    requires
        1 <= n <= 9,
    ensures
        n <= varint_width_from(v, n) <= 9,
        varint_width_from(v, n) < 9 ==> v < pow128(varint_width_from(v, n)),
    decreases 9 - n,
{
    if n < 9 && v >= pow128(n) {
        lemma_width(v, n + 1);
    }
}

proof fn lemma_pow128_pos(n: nat)
    ensures
        pow128(n) > 0,
    decreases n,
{
    if n > 0 {
        lemma_pow128_pos((n - 1) as nat);
    }
}

/// One more group: `(w / 128^(m+1)) * 128 + (w / 128^m) % 128 == w / 128^m`.
proof fn lemma_group_step(w: nat, m: nat)
    ensures
        (w / pow128(m + 1)) * 128 + (w / pow128(m)) % 128 == w / pow128(m),
{
    lemma_pow128_pos(m);
    let y = w / pow128(m);
    assert(pow128(m + 1) == pow128(m) * 128);
    vstd::arithmetic::div_mod::lemma_div_denominator(w as int, pow128(m) as int, 128);
    vstd::arithmetic::div_mod::lemma_fundamental_div_mod(y as int, 128);
}

/// The first `m` bytes of an `n`-byte encoding of `w` read back `w / 128^(n-m)`.
proof fn lemma_acc_groups(s: Seq<u8>, w: nat, n: nat, m: nat)
    requires
        m <= n <= 8,
        n <= s.len(),
        w < pow128(n),
        forall|k: int| 0 <= k < n ==> #[trigger] s[k] as nat % 128 == w / pow128((n - 1 - k) as nat) % 128,
    ensures
        varint_acc(s, m) == w / pow128((n - m) as nat),
    decreases m,
{
    lemma_pow128_pos(n);
    if m == 0 {
        vstd::arithmetic::div_mod::lemma_basic_div(w as int, pow128(n) as int);
    } else {
        lemma_acc_groups(s, w, n, (m - 1) as nat);
        lemma_group_step(w, (n - m) as nat);
        assert((n - m) as nat + 1 == (n - (m - 1)) as nat);
        assert(s[m - 1] as nat % 128 == w / pow128((n - 1 - (m - 1)) as nat) % 128);
    }
}

/// Decoding the encoding of `v` gives back `v`, and reads exactly the bytes
/// of the encoding.
pub proof fn law_varint_round_trip(v: u64)
    ensures
        varint_len(varint_bytes(v as nat)) == varint_bytes(v as nat).len(),
        1 <= varint_bytes(v as nat).len() <= 9,
        varint_value(varint_bytes(v as nat)) == v as i64,
{
    let x = v as nat;
    let n = varint_width(x);
    let s = varint_bytes(x);
    lemma_width(x, 1);
    lemma_pow_values();
    if n == 9 {
        let w = x / 256;
        assert(w < pow128(8)) by {
            assert(x < 0x1_0000_0000_0000_0000);
            vstd::arithmetic::div_mod::lemma_div_by_multiple_is_strongly_ordered(
                x as int,
                0x1_0000_0000_0000_0000,
                0x100_0000_0000_0000,
                256,
            );
        }
        assert forall|k: int| 0 <= k < 8 implies #[trigger] s[k] as nat % 128 == w / pow128(
            (8 - 1 - k) as nat,
        ) % 128 by {
            let g = w / pow128((7 - k) as nat) % 128;
            assert(s[k] == (g + 128) as u8);
        }
        assert forall|k: int| 0 <= k < 8 implies #[trigger] s[k] >= 0x80 by {}
        lemma_acc_groups(s, w, 8, 8);
        lemma_varint_len_skip(s, 8);
        assert(pow128(0) == 1);
        assert(varint_acc(s, 9) == varint_acc(s, 8) * 256 + s[8] as nat);
        assert(w * 256 + x % 256 == x) by {
            vstd::arithmetic::div_mod::lemma_fundamental_div_mod(x as int, 256);
        }
        assert(s[8] as nat == x % 256);
        assert(w / 1 == w) by {
            vstd::arithmetic::div_mod::lemma_div_basics(w as int);
        }
        assert(varint_acc(s, 8) == w);
        assert(varint_len(s) == 9);
        assert(varint_acc(s, varint_len(s)) == x);
    } else {
        assert forall|k: int| 0 <= k < n implies #[trigger] s[k] as nat % 128 == x / pow128(
            (n - 1 - k) as nat,
        ) % 128 by {
            let g = x / pow128((n - 1 - k) as nat) % 128;
            if k < n - 1 {
                assert(s[k] == (g + 128) as u8);
            } else {
                assert(s[k] == g as u8);
            }
        }
        assert forall|k: int| 0 <= k < n - 1 implies #[trigger] s[k] >= 0x80 by {
            let g = x / pow128((n - 1 - k) as nat) % 128;
            assert(s[k] == (g + 128) as u8);
        }
        lemma_acc_groups(s, x, n, n);
        lemma_varint_len_skip(s, (n - 1) as nat);
        let g = x / pow128(0) % 128;
        assert(s[n - 1] == g as u8);
        assert(pow128(0) == 1);
        assert(varint_len(s) == n);
        assert(varint_acc(s, n) == x / pow128(0));
        assert(x / 1 == x) by {
            vstd::arithmetic::div_mod::lemma_div_basics(x as int);
        }
        assert(varint_acc(s, varint_len(s)) == x);
    }
    assert(varint_value(s) == x as i64);
}

fn pow128_exec(e: usize) -> (r: u64)
    requires
        e <= 8,
    ensures
        r == pow128(e as nat),
        r > 0,
{
    proof {
        lemma_pow128_pos(e as nat);
    }
    let mut r: u64 = 1;
    let mut i: usize = 0;
    while i < e
        invariant
            i <= e <= 8,
            r == pow128(i as nat),
        decreases e - i,
    {
        proof {
            lemma_pow128_le(i as nat + 1, 8);
            lemma_pow_values();
        }
        r = r * 128;
        i = i + 1;
    }
    r
}

/// Writes `v` as a varint, in the fewest bytes that hold it.
pub fn encode_varint(v: i64) -> (r: Vec<u8>)
    ensures
        r@ == varint_bytes((v as u64) as nat),
{
    let x = v as u64;
    let ghost spec = varint_bytes(x as nat);
    let mut n: usize = 1;
    while n < 9 && x >= pow128_exec(n)
        invariant
            1 <= n <= 9,
            varint_width(x as nat) == varint_width_from(x as nat, n as nat),
        decreases 9 - n,
    {
        n = n + 1;
    }
    assert(varint_width(x as nat) == n);
    let mut out: Vec<u8> = Vec::new();
    let mut k: usize = 0;
    if n == 9 {
        let w = x / 256;
        while k < 8
            invariant
                n == 9,
                spec == varint_bytes(x as nat),
                varint_width(x as nat) == 9,
                w == x / 256,
                k <= 8,
                out@.len() == k,
                forall|j: int| 0 <= j < k ==> out@[j] == spec[j],
            decreases 8 - k,
        {
            let g = (w / pow128_exec(7 - k)) % 128;
            out.push(g as u8 + 128);
            k = k + 1;
        }
        out.push((x % 256) as u8);
    } else {
        while k < n
            invariant
                n < 9,
                spec == varint_bytes(x as nat),
                varint_width(x as nat) == n,
                k <= n,
                out@.len() == k,
                forall|j: int| 0 <= j < k ==> out@[j] == spec[j],
            decreases n - k,
        {
            let g = (x / pow128_exec(n - 1 - k)) % 128;
            let b = if k < n - 1 {
                g as u8 + 128
            } else {
                g as u8
            };
            out.push(b);
            k = k + 1;
        }
    }
    assert(out@ =~= spec);
    out
}

} // verus!
