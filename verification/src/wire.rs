//! Wire-format primitives: little-endian variable-length integers,
//! length-prefixed byte runs, booleans, and tag bytes.
//!
//! Every `enc_*` spec function gives the exact byte sequence of a value;
//! every `parse_*` spec function is its strict inverse, rejecting
//! non-canonical forms.  The `lemma_parse_*` functions prove that parsing
//! an encoding embedded in a longer sequence recovers the value.

use vstd::prelude::*;
use vstd::arithmetic::div_mod::lemma_div_denominator;
use vstd::arithmetic::div_mod::lemma_fundamental_div_mod;

verus! {

// ---------------------------------------------------------------------
// 16-bit variable-length integers
// ---------------------------------------------------------------------
/// Encoding of a `u16`: one byte below 251, else a marker and two
/// little-endian bytes.
pub open spec fn enc_varu16(x: u16) -> Seq<u8> {
    if x < 251 {
        seq![x as u8]
    } else {
        seq![251u8, (x as int % 256) as u8, (x as int / 256) as u8]
    }
}

/// Strict parse of a `u16` at index `i`; `None` on truncation or a
/// non-canonical form.
pub open spec fn parse_varu16(s: Seq<u8>, i: int) -> Option<(u16, int)> {
    if 0 <= i < s.len() {
        let b0 = s[i];
        if b0 < 251 {
            Some((b0 as u16, i + 1))
        } else if b0 == 251 {
            if i + 3 <= s.len() {
                let v = s[i + 1] + 256 * (s[i + 2] as int);
                if v >= 251 {
                    Some((v as u16, i + 3))
                } else {
                    None
                }
            } else {
                None
            }
        } else {
            None
        }
    } else {
        None
    }
}

pub proof fn lemma_parse_varu16(s: Seq<u8>, i: int, x: u16)
    requires
        0 <= i,
        i + enc_varu16(x).len() <= s.len(),
        s.subrange(i, i + enc_varu16(x).len() as int) == enc_varu16(x),
    ensures
        parse_varu16(s, i) == Some((x, i + enc_varu16(x).len() as int)),
{
    if x < 251 {
        assert(s[i] == enc_varu16(x)[0]);
    } else {
        assert(s[i] == enc_varu16(x)[0]);
        assert(s[i + 1] == enc_varu16(x)[1]);
        assert(s[i + 2] == enc_varu16(x)[2]);
        lemma_fundamental_div_mod(x as int, 256);
        assert(x as int / 256 < 256);
        assert(s[i + 1] + 256 * (s[i + 2] as int) == x as int);
    }
}

// ---------------------------------------------------------------------
// 32-bit variable-length integers
// ---------------------------------------------------------------------
/// Encoding of a `u32`: one byte below 251, a 2-byte form below 2^16,
/// else a 4-byte form.
pub open spec fn enc_varu32(x: u32) -> Seq<u8> {
    if x < 251 {
        seq![x as u8]
    } else if x < 65536 {
        seq![251u8, (x as int % 256) as u8, (x as int / 256) as u8]
    } else {
        seq![
            252u8,
            (x as int % 256) as u8,
            (x as int / 256 % 256) as u8,
            (x as int / 65536 % 256) as u8,
            (x as int / 16777216) as u8,
        ]
    }
}

/// Strict parse of a `u32` at index `i`.
pub open spec fn parse_varu32(s: Seq<u8>, i: int) -> Option<(u32, int)> {
    if 0 <= i < s.len() {
        let b0 = s[i];
        if b0 < 251 {
            Some((b0 as u32, i + 1))
        } else if b0 == 251 {
            if i + 3 <= s.len() {
                let v = s[i + 1] + 256 * (s[i + 2] as int);
                if v >= 251 {
                    Some((v as u32, i + 3))
                } else {
                    None
                }
            } else {
                None
            }
        } else if b0 == 252 {
            if s.len() - i >= 5 {
                let v = s[i + 1] + 256 * (s[i + 2] as int) + 65536 * (s[i + 3] as int) + 16777216
                    * (s[i + 4] as int);
                if v >= 65536 {
                    Some((v as u32, i + 5))
                } else {
                    None
                }
            } else {
                None
            }
        } else {
            None
        }
    } else {
        None
    }
}

pub proof fn lemma_parse_varu32(s: Seq<u8>, i: int, x: u32)
    requires
        0 <= i,
        i + enc_varu32(x).len() <= s.len(),
        s.subrange(i, i + enc_varu32(x).len() as int) == enc_varu32(x),
    ensures
        parse_varu32(s, i) == Some((x, i + enc_varu32(x).len() as int)),
{
    if x < 251 {
        assert(s[i] == enc_varu32(x)[0]);
    } else if x < 65536 {
        assert(s[i] == enc_varu32(x)[0]);
        assert(s[i + 1] == enc_varu32(x)[1]);
        assert(s[i + 2] == enc_varu32(x)[2]);
        lemma_fundamental_div_mod(x as int, 256);
        assert(x as int / 256 < 256);
        assert(s[i + 1] + 256 * (s[i + 2] as int) == x as int);
    } else {
        assert(s[i] == enc_varu32(x)[0]);
        assert(s[i + 1] == enc_varu32(x)[1]);
        assert(s[i + 2] == enc_varu32(x)[2]);
        assert(s[i + 3] == enc_varu32(x)[3]);
        assert(s[i + 4] == enc_varu32(x)[4]);
        lemma_le4_value(x);
    }
}

/// A 32-bit value is the little-endian sum of its four byte digits.
pub proof fn lemma_le4_value(x: u32)
    ensures
        x as int == x as int % 256 + 256 * (x as int / 256 % 256) + 65536 * (x as int / 65536 % 256)
            + 16777216 * (x as int / 16777216),
        x as int / 16777216 < 256,
{
    let xi = x as int;
    lemma_fundamental_div_mod(xi, 256);
    let q1 = xi / 256;
    lemma_fundamental_div_mod(q1, 256);
    let q2 = q1 / 256;
    lemma_div_denominator(xi, 256, 256);
    assert(q2 == xi / 65536);
    lemma_fundamental_div_mod(q2, 256);
    let q3 = q2 / 256;
    lemma_div_denominator(xi, 65536, 256);
    assert(q3 == xi / 16777216);
    assert(xi == xi % 256 + 256 * (q1 % 256 + 256 * (q2 % 256 + 256 * q3))) by (nonlinear_arith)
        requires
            xi == 256 * q1 + xi % 256,
            q1 == 256 * q2 + q1 % 256,
            q2 == 256 * q3 + q2 % 256,
    ;
}

// ---------------------------------------------------------------------
// Booleans and tag bytes
// ---------------------------------------------------------------------
pub open spec fn enc_bool(b: bool) -> Seq<u8> {
    if b {
        seq![1u8]
    } else {
        seq![0u8]
    }
}

/// Strict parse of a boolean: only 0 and 1 are accepted.
pub open spec fn parse_bool(s: Seq<u8>, i: int) -> Option<(bool, int)> {
    if 0 <= i < s.len() {
        if s[i] == 0 {
            Some((false, i + 1))
        } else if s[i] == 1 {
            Some((true, i + 1))
        } else {
            None
        }
    } else {
        None
    }
}

pub proof fn lemma_parse_bool(s: Seq<u8>, i: int, b: bool)
    requires
        0 <= i,
        i + 1 <= s.len(),
        s.subrange(i, i + 1) == enc_bool(b),
    ensures
        parse_bool(s, i) == Some((b, i + 1)),
{
    assert(s[i] == enc_bool(b)[0]);
}

// ---------------------------------------------------------------------
// Length-prefixed byte runs
// ---------------------------------------------------------------------
/// A byte run: its length as a 32-bit varint, then the bytes.
pub open spec fn enc_bytes(b: Seq<u8>) -> Seq<u8>
    recommends
        b.len() < 0x100000000,
{
    enc_varu32(b.len() as u32) + b
}

/// Parse of a byte run with a length cap; `None` when the declared
/// length exceeds the cap or the input.
pub open spec fn parse_bytes(s: Seq<u8>, i: int, cap: int) -> Option<(Seq<u8>, int)> {
    match parse_varu32(s, i) {
        Some((n, j)) => {
            if n <= cap && j + n <= s.len() {
                Some((s.subrange(j, j + n), j + n))
            } else {
                None
            }
        },
        None => None,
    }
}

pub proof fn lemma_parse_bytes(s: Seq<u8>, i: int, b: Seq<u8>, cap: int)
    requires
        0 <= i,
        b.len() <= cap,
        b.len() < 0x100000000,
        i + enc_bytes(b).len() <= s.len(),
        s.subrange(i, i + enc_bytes(b).len() as int) == enc_bytes(b),
    ensures
        parse_bytes(s, i, cap) == Some((b, i + enc_bytes(b).len() as int)),
{
    let n = b.len() as u32;
    let h = enc_varu32(n);
    assert(s.subrange(i, i + h.len() as int) =~= h) by {
        assert forall|k: int| 0 <= k < h.len() implies s.subrange(i, i + h.len() as int)[k] == h[k] by {
            assert(s[i + k] == enc_bytes(b)[k]);
        }
    }
    lemma_parse_varu32(s, i, n);
    let j = i + h.len() as int;
    assert(s.subrange(j, j + b.len() as int) =~= b) by {
        assert forall|k: int| 0 <= k < b.len() implies s.subrange(j, j + b.len() as int)[k] == b[k] by {
            assert(s[j + k] == enc_bytes(b)[h.len() + k]);
        }
    }
}

/// A fixed 32-byte run with no length prefix, as used for raw keys.
pub open spec fn parse_key_bytes(s: Seq<u8>, i: int) -> Option<(Seq<u8>, int)> {
    if 0 <= i && i + 32 <= s.len() {
        Some((s.subrange(i, i + 32), i + 32))
    } else {
        None
    }
}

// ---------------------------------------------------------------------
// Executable encoders
// ---------------------------------------------------------------------
pub fn push_varu16(out: &mut Vec<u8>, x: u16)
    ensures
        final(out)@ == old(out)@ + enc_varu16(x),
{
    if x < 251 {
        out.push(x as u8);
        assert(out@ =~= old(out)@ + enc_varu16(x));
    } else {
        out.push(251u8);
        out.push((x % 256) as u8);
        out.push((x / 256) as u8);
        assert(out@ =~= old(out)@ + enc_varu16(x));
    }
}

pub fn push_varu32(out: &mut Vec<u8>, x: u32)
    ensures
        final(out)@ == old(out)@ + enc_varu32(x),
{
    if x < 251 {
        out.push(x as u8);
        assert(out@ =~= old(out)@ + enc_varu32(x));
    } else if x < 65536 {
        out.push(251u8);
        out.push((x % 256) as u8);
        out.push((x / 256) as u8);
        assert(out@ =~= old(out)@ + enc_varu32(x));
    } else {
        out.push(252u8);
        out.push((x % 256) as u8);
        out.push((x / 256 % 256) as u8);
        out.push((x / 65536 % 256) as u8);
        out.push((x / 16777216) as u8);
        assert(out@ =~= old(out)@ + enc_varu32(x));
    }
}

pub fn push_bool(out: &mut Vec<u8>, b: bool)
    ensures
        final(out)@ == old(out)@ + enc_bool(b),
{
    if b {
        out.push(1u8);
    } else {
        out.push(0u8);
    }
    assert(out@ =~= old(out)@ + enc_bool(b));
}

pub fn push_bytes(out: &mut Vec<u8>, b: &[u8])
    requires
        b@.len() < 0x100000000,
    ensures
        final(out)@ == old(out)@ + enc_bytes(b@),
{
    push_varu32(out, b.len() as u32);
    let mut k: usize = 0;
    while k < b.len()
        invariant
            k <= b@.len(),
            out@ == old(out)@ + enc_varu32(b@.len() as u32) + b@.subrange(0, k as int),
        decreases b@.len() - k,
    {
        out.push(b[k]);
        assert(out@ =~= old(out)@ + enc_varu32(b@.len() as u32) + b@.subrange(0, k + 1 as int));
        k = k + 1;
    }
    assert(b@.subrange(0, b@.len() as int) =~= b@);
}

/// Appends a raw byte run with no length prefix.
pub fn push_slice(out: &mut Vec<u8>, b: &[u8])
    ensures
        final(out)@ == old(out)@ + b@,
{
    let mut k: usize = 0;
    while k < b.len()
        invariant
            k <= b@.len(),
            out@ == old(out)@ + b@.subrange(0, k as int),
        decreases b@.len() - k,
    {
        out.push(b[k]);
        assert(out@ =~= old(out)@ + b@.subrange(0, k + 1 as int));
        k = k + 1;
    }
    assert(b@.subrange(0, b@.len() as int) =~= b@);
}

// ---------------------------------------------------------------------
// Executable parsers
// ---------------------------------------------------------------------
/// Executable strict parse of a `u16`; mirrors [`parse_varu16`].
pub fn read_varu16(s: &[u8], i: usize) -> (r: Option<(u16, usize)>)
    ensures
        match r {
            Some((v, j)) => parse_varu16(s@, i as int) == Some((v, j as int)) && i < j <= s@.len(),
            None => parse_varu16(s@, i as int) is None,
        },
{
    if i >= s.len() {
        return None;
    }
    let b0 = s[i];
    if b0 < 251 {
        Some((b0 as u16, i + 1))
    } else if b0 == 251 {
        if s.len() - i >= 3 {
            let v: u16 = s[i + 1] as u16 + 256 * (s[i + 2] as u16);
            if v >= 251 {
                Some((v, i + 3))
            } else {
                None
            }
        } else {
            None
        }
    } else {
        None
    }
}

/// Executable strict parse of a `u32`; mirrors [`parse_varu32`].
pub fn read_varu32(s: &[u8], i: usize) -> (r: Option<(u32, usize)>)
    ensures
        match r {
            Some((v, j)) => parse_varu32(s@, i as int) == Some((v, j as int)) && i < j <= s@.len(),
            None => parse_varu32(s@, i as int) is None,
        },
{
    if i >= s.len() {
        return None;
    }
    let b0 = s[i];
    if b0 < 251 {
        Some((b0 as u32, i + 1))
    } else if b0 == 251 {
        if s.len() - i >= 3 {
            let v: u32 = s[i + 1] as u32 + 256 * (s[i + 2] as u32);
            if v >= 251 {
                Some((v, i + 3))
            } else {
                None
            }
        } else {
            None
        }
    } else if b0 == 252 {
        if s.len() - i >= 5 {
            let v: u32 = s[i + 1] as u32 + 256 * (s[i + 2] as u32) + 65536 * (s[i + 3] as u32)
                + 16777216 * (s[i + 4] as u32);
            if v >= 65536 {
                Some((v, i + 5))
            } else {
                None
            }
        } else {
            None
        }
    } else {
        None
    }
}

/// Executable strict parse of a boolean; mirrors [`parse_bool`].
pub fn read_bool(s: &[u8], i: usize) -> (r: Option<(bool, usize)>)
    ensures
        match r {
            Some((v, j)) => parse_bool(s@, i as int) == Some((v, j as int)) && i < j <= s@.len(),
            None => parse_bool(s@, i as int) is None,
        },
{
    if i >= s.len() {
        return None;
    }
    if s[i] == 0 {
        Some((false, i + 1))
    } else if s[i] == 1 {
        Some((true, i + 1))
    } else {
        None
    }
}

/// Copies the byte run at `s[j .. j + n]` out as a vector.
pub fn read_raw(s: &[u8], j: usize, n: usize) -> (r: Vec<u8>)
    requires
        j + n <= s@.len(),
    ensures
        r@ == s@.subrange(j as int, j + n as int),
{
    let slen = s.len();
    let mut out: Vec<u8> = Vec::new();
    let mut k: usize = 0;
    while k < n
        invariant
            k <= n,
            j + n <= slen,
            slen == s@.len(),
            out@ == s@.subrange(j as int, j + k as int),
        decreases n - k,
    {
        out.push(s[j + k]);
        assert(out@ =~= s@.subrange(j as int, j + (k + 1) as int));
        k = k + 1;
    }
    out
}

/// Executable parse of a length-prefixed byte run; mirrors [`parse_bytes`].
pub fn read_bytes(s: &[u8], i: usize, cap: usize) -> (r: Option<(Vec<u8>, usize)>)
    requires
        cap < 0x100000000,
    ensures
        match r {
            Some((v, j)) => parse_bytes(s@, i as int, cap as int) == Some((v@, j as int)) && i < j
                <= s@.len(),
            None => parse_bytes(s@, i as int, cap as int) is None,
        },
{
    match read_varu32(s, i) {
        Some((n, j)) => {
            if n as usize <= cap && n as usize <= s.len() - j {
                let v = read_raw(s, j, n as usize);
                Some((v, j + n as usize))
            } else {
                None
            }
        },
        None => None,
    }
}

} // verus!
