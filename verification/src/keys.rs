//! Node identity: 32-byte Curve25519 key pairs, shown as lowercase hex.

use vstd::prelude::*;

verus! {

/// Number of bytes in a public or private key.
pub const KEY_LEN: usize = 32;

/// Compares two 32-byte keys byte by byte.
pub fn eq_bytes32(a: &[u8; 32], b: &[u8; 32]) -> (r: bool)
    ensures
        r == (a@ == b@),
{
    let mut i: usize = 0;
    while i < 32
        invariant
            i <= 32,
            forall|j: int| 0 <= j < i ==> a@[j] == b@[j],
        decreases 32 - i,
    {
        if a[i] != b[i] {
            assert(a@[i as int] != b@[i as int]);
            return false;
        }
        i = i + 1;
    }
    assert(a@ =~= b@);
    true
}

/// A node's permanent public identity: a 32-byte Curve25519 key.
#[derive(Clone, Copy, Debug, Hash)]
pub struct PublicKey(pub [u8; 32]);

impl PartialEq for PublicKey {
    fn eq(&self, o: &Self) -> (r: bool) {
        eq_bytes32(&self.0, &o.0)
    }
}

impl Eq for PublicKey {}

impl vstd::std_specs::cmp::PartialEqSpecImpl for PublicKey {
    open spec fn obeys_eq_spec() -> bool {
        true
    }

    open spec fn eq_spec(&self, o: &Self) -> bool {
        self.0@ == o.0@
    }
}

impl PublicKey {
    pub fn new(key: [u8; 32]) -> (r: Self)
        ensures
            r@ == key@,
    {
        PublicKey(key)
    }

    /// The raw key bytes.
    pub fn as_bytes(&self) -> (r: &[u8; 32])
        ensures
            r@ == self@,
    {
        &self.0
    }
}

impl View for PublicKey {
    type V = Seq<u8>;

    open spec fn view(&self) -> Seq<u8> {
        self.0@
    }
}

/// The matching 32-byte Curve25519 scalar.
///
/// The scalar is not scrubbed from memory when a value is dropped: a
/// zeroize-on-drop guarantee would rest on an outside derive and on
/// drop-time side effects that no contract here can state, so it is
/// deliberately left out rather than half-promised.
#[derive(Clone)]
pub struct PrivateKey(pub [u8; 32]);

impl PrivateKey {
    pub fn new(key: [u8; 32]) -> (r: Self)
        ensures
            r@ == key@,
    {
        PrivateKey(key)
    }

    /// The raw key bytes.
    pub fn as_bytes(&self) -> (r: &[u8; 32])
        ensures
            r@ == self@,
    {
        &self.0
    }
}

impl View for PrivateKey {
    type V = Seq<u8>;

    open spec fn view(&self) -> Seq<u8> {
        self.0@
    }
}

/// A node's key pair, as loaded from configuration or freshly generated.
pub struct Keys {
    pub public: PublicKey,
    pub private: PrivateKey,
}

// ---------------------------------------------------------------------
// Hex display and parse
// ---------------------------------------------------------------------
/// The lowercase hex digit for a value below 16, as an ASCII byte.
pub open spec fn spec_hex_digit(n: u8) -> u8 {
    if n < 10 {
        (0x30 + n) as u8
    } else {
        (0x57 + n) as u8
    }
}

/// The lowercase hex spelling of a byte sequence, two digits per byte.
pub open spec fn spec_hex_of(b: Seq<u8>) -> Seq<u8>
    decreases b.len(),
{
    if b.len() == 0 {
        Seq::empty()
    } else {
        spec_hex_of(b.drop_last()) + seq![
            spec_hex_digit(b.last() / 16),
            spec_hex_digit(b.last() % 16),
        ]
    }
}

/// The value of one hex digit, either case; `None` for any other byte.
pub open spec fn spec_hex_val(d: u8) -> Option<u8> {
    if 0x30 <= d <= 0x39 {
        Some((d - 0x30) as u8)
    } else if 0x61 <= d <= 0x66 {
        Some((d - 0x57) as u8)
    } else if 0x41 <= d <= 0x46 {
        Some((d - 0x37) as u8)
    } else {
        None
    }
}

/// The bytes a hex spelling denotes; `None` on an odd length or any
/// non-digit.
pub open spec fn spec_hex_parse(s: Seq<u8>) -> Option<Seq<u8>>
    decreases s.len(),
{
    if s.len() % 2 != 0 {
        None
    } else if s.len() == 0 {
        Some(Seq::empty())
    } else {
        match spec_hex_parse(s.take(s.len() - 2)) {
            Some(rest) => match (spec_hex_val(s[s.len() - 2]), spec_hex_val(s[s.len() - 1])) {
                (Some(hi), Some(lo)) => Some(rest.push((hi * 16 + lo) as u8)),
                _ => None,
            },
            None => None,
        }
    }
}

/// The lowercase hex text of a key, as ASCII bytes: how a key is
/// displayed.
pub fn key_to_hex(key: &[u8; 32]) -> (r: Vec<u8>)
    ensures
        r@ == spec_hex_of(key@),
        r@.len() == 64,
{
    let mut out: Vec<u8> = Vec::new();
    let mut i: usize = 0;
    while i < 32
        invariant
            i <= 32,
            key@.len() == 32,
            out@ == spec_hex_of(key@.take(i as int)),
            out@.len() == 2 * i,
        decreases 32 - i,
    {
        let b = key[i];
        let hi = b / 16;
        let lo = b % 16;
        out.push(
            if hi < 10 {
                0x30 + hi
            } else {
                0x57 + hi
            },
        );
        out.push(
            if lo < 10 {
                0x30 + lo
            } else {
                0x57 + lo
            },
        );
        proof {
            assert(key@.take(i + 1).drop_last() =~= key@.take(i as int));
            assert(key@.take(i + 1).last() == key@[i as int]);
            assert(out@ =~= spec_hex_of(key@.take(i + 1)));
        }
        i = i + 1;
    }
    proof {
        assert(key@.take(32) =~= key@);
    }
    out
}

/// Parses the 64-digit hex text of a key, either case; `None` on any
/// other input.
pub fn key_from_hex(s: &[u8]) -> (r: Option<[u8; 32]>)
    ensures
        match r {
            Some(k) => s@.len() == 64 && spec_hex_parse(s@) == Some(k@),
            None => s@.len() != 64 || spec_hex_parse(s@) is None,
        },
{
    if s.len() != 64 {
        return None;
    }
    let mut out = [0u8; 32];
    let mut i: usize = 0;
    while i < 32
        invariant
            i <= 32,
            s@.len() == 64,
            out@.len() == 32,
            spec_hex_parse(s@.take(2 * i as int)) matches Some(pre) && pre == out@.take(i as int),
        decreases 32 - i,
    {
        let hi = match hex_val(s[2 * i]) {
            Some(v) => v,
            None => {
                proof {
                    lemma_hex_parse_extends_none(s@, 2 * i as int);
                }
                return None;
            },
        };
        let lo = match hex_val(s[2 * i + 1]) {
            Some(v) => v,
            None => {
                proof {
                    lemma_hex_parse_extends_none(s@, 2 * i as int);
                }
                return None;
            },
        };
        out[i] = hi * 16 + lo;
        proof {
            assert(s@.take(2 * (i + 1) as int).take(2 * i as int) =~= s@.take(2 * i as int));
            assert(spec_hex_parse(s@.take(2 * (i + 1) as int)) matches Some(q) && q =~= out@.take(
                i + 1,
            ));
        }
        i = i + 1;
    }
    proof {
        assert(s@.take(64) =~= s@);
        assert(out@.take(32) =~= out@);
    }
    Some(out)
}

/// A failed digit at an even position fails the whole spelling.
proof fn lemma_hex_parse_extends_none(s: Seq<u8>, j: int)
    requires
        0 <= j,
        j % 2 == 0,
        j + 2 <= s.len(),
        s.len() % 2 == 0,
        spec_hex_val(s[j]) is None || spec_hex_val(s[j + 1]) is None,
    ensures
        spec_hex_parse(s) is None,
    decreases s.len() - j,
{
    if s.len() == j + 2 {
        assert(s.take(s.len() - 2).len() % 2 == 0);
        assert(s[s.len() - 2] == s[j] && s[s.len() - 1] == s[j + 1]);
    } else {
        lemma_hex_parse_extends_none(s.take(s.len() - 2), j);
    }
}

/// The value of one hex digit byte, either case.
pub(crate) fn hex_val(d: u8) -> (r: Option<u8>)
    ensures
        r == spec_hex_val(d),
{
    if 0x30 <= d && d <= 0x39 {
        Some(d - 0x30)
    } else if 0x61 <= d && d <= 0x66 {
        Some(d - 0x57)
    } else if 0x41 <= d && d <= 0x46 {
        Some(d - 0x37)
    } else {
        None
    }
}

/// Displaying a key and parsing the text gives the key back.
pub proof fn lemma_hex_round_trip(b: Seq<u8>)
    ensures
        spec_hex_parse(spec_hex_of(b)) == Some(b),
        spec_hex_of(b).len() == 2 * b.len(),
    decreases b.len(),
{
    if b.len() == 0 {
        assert(spec_hex_of(b) =~= Seq::<u8>::empty());
    } else {
        lemma_hex_round_trip(b.drop_last());
        let h = spec_hex_of(b);
        assert(h.take(h.len() - 2) =~= spec_hex_of(b.drop_last()));
        let x = b.last();
        assert(spec_hex_val(spec_hex_digit(x / 16)) == Some(x / 16));
        assert(spec_hex_val(spec_hex_digit(x % 16)) == Some(x % 16));
        assert((x / 16) * 16 + x % 16 == x) by (nonlinear_arith);
        assert(spec_hex_parse(h).unwrap() =~= b);
    }
}

} // verus!
