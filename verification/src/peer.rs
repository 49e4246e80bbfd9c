//! Network neighbors: a peer is a protocol plus an address.

use vstd::prelude::*;

verus! {

/// Transport protocol of a peer.
#[derive(Clone, Copy, Debug, PartialEq, Eq, Structural, Hash)]
pub enum Protocol {
    Udp,
    Tcp,
    Ws,
    Wss,
    Bluetooth,
}

/// An IP address, stored as raw network-order bytes.
#[derive(Clone, Copy, Debug, Hash)]
pub enum IpAddress {
    V4([u8; 4]),
    V6([u8; 16]),
}

/// Model of [`IpAddress`].
pub enum IpModel {
    V4(Seq<u8>),
    V6(Seq<u8>),
}

impl IpModel {
    pub open spec fn wf(&self) -> bool {
        match *self {
            IpModel::V4(b) => b.len() == 4,
            IpModel::V6(b) => b.len() == 16,
        }
    }

    /// True for addresses that can only name this machine.
    pub open spec fn is_loopback(&self) -> bool {
        match *self {
            IpModel::V4(b) => b[0] == 127u8,
            IpModel::V6(b) => {
                &&& forall|i: int| 0 <= i < 15 ==> b[i] == 0u8
                &&& b[15] == 1u8
            },
        }
    }
}

impl View for IpAddress {
    type V = IpModel;

    open spec fn view(&self) -> IpModel {
        match *self {
            IpAddress::V4(b) => IpModel::V4(b@),
            IpAddress::V6(b) => IpModel::V6(b@),
        }
    }
}

/// Where a peer can be reached.
#[derive(Clone, Copy, Debug, Hash)]
pub enum Address {
    Ip { address: IpAddress, port: u16 },
    Bluetooth { address: [u8; 6], psm: u16 },
}

/// Model of [`Address`].
pub enum AddressModel {
    Ip { address: IpModel, port: u16 },
    Bluetooth { address: Seq<u8>, psm: u16 },
}

impl AddressModel {
    pub open spec fn wf(&self) -> bool {
        match *self {
            AddressModel::Ip { address, .. } => address.wf(),
            AddressModel::Bluetooth { address, .. } => address.len() == 6,
        }
    }
}

impl View for Address {
    type V = AddressModel;

    open spec fn view(&self) -> AddressModel {
        match *self {
            Address::Ip { address, port } => AddressModel::Ip { address: address@, port },
            Address::Bluetooth { address, psm } => AddressModel::Bluetooth {
                address: address@,
                psm,
            },
        }
    }
}

/// A protocol-plus-address pair naming a network neighbor.
#[derive(Clone, Copy, Debug, Hash)]
pub struct Peer {
    pub protocol: Protocol,
    pub address: Address,
}

/// Model of [`Peer`].
pub struct PeerModel {
    pub protocol: Protocol,
    pub address: AddressModel,
}

impl PeerModel {
    pub open spec fn wf(&self) -> bool {
        self.address.wf()
    }

    pub open spec fn is_loopback(&self) -> bool {
        match self.address {
            AddressModel::Ip { address, .. } => address.is_loopback(),
            AddressModel::Bluetooth { .. } => false,
        }
    }
}

impl View for Peer {
    type V = PeerModel;

    open spec fn view(&self) -> PeerModel {
        PeerModel { protocol: self.protocol, address: self.address@ }
    }
}

impl Peer {
    /// Whether this peer's address is a loopback address.
    ///
    /// Discovery skips such peers: connecting to them would only reach
    /// this machine again.
    pub fn is_loopback(&self) -> (r: bool)
        ensures
            r == self@.is_loopback(),
    {
        match self.address {
            Address::Ip { address, .. } => match address {
                IpAddress::V4(b) => b[0] == 127,
                IpAddress::V6(b) => {
                    let mut i: usize = 0;
                    let mut all_zero = true;
                    while i < 15
                        invariant
                            i <= 15,
                            all_zero == (forall|j: int| 0 <= j < i ==> b@[j] == 0u8),
                        decreases 15 - i,
                    {
                        if b[i] != 0 {
                            all_zero = false;
                        }
                        i = i + 1;
                    }
                    all_zero && b[15] == 1
                },
            },
            Address::Bluetooth { .. } => false,
        }
    }
}

fn eq_bytes4(a: &[u8; 4], b: &[u8; 4]) -> (r: bool)
    ensures
        r == (a@ == b@),
{
    let r = a[0] == b[0] && a[1] == b[1] && a[2] == b[2] && a[3] == b[3];
    if r {
        assert(a@ =~= b@);
    }
    r
}

fn eq_bytes6(a: &[u8; 6], b: &[u8; 6]) -> (r: bool)
    ensures
        r == (a@ == b@),
{
    let r = a[0] == b[0] && a[1] == b[1] && a[2] == b[2] && a[3] == b[3] && a[4] == b[4] && a[5]
        == b[5];
    if r {
        assert(a@ =~= b@);
    }
    r
}

fn eq_bytes16(a: &[u8; 16], b: &[u8; 16]) -> (r: bool)
    ensures
        r == (a@ == b@),
{
    let mut i: usize = 0;
    while i < 16
        invariant
            i <= 16,
            forall|j: int| 0 <= j < i ==> a@[j] == b@[j],
        decreases 16 - i,
    {
        if a[i] != b[i] {
            return false;
        }
        i = i + 1;
    }
    assert(a@ =~= b@);
    true
}

impl PartialEq for IpAddress {
    fn eq(&self, o: &Self) -> (r: bool) {
        match (self, o) {
            (IpAddress::V4(a), IpAddress::V4(b)) => eq_bytes4(a, b),
            (IpAddress::V6(a), IpAddress::V6(b)) => eq_bytes16(a, b),
            _ => false,
        }
    }
}

impl Eq for IpAddress {}

impl vstd::std_specs::cmp::PartialEqSpecImpl for IpAddress {
    open spec fn obeys_eq_spec() -> bool {
        true
    }

    open spec fn eq_spec(&self, o: &Self) -> bool {
        self@ == o@
    }
}

impl PartialEq for Address {
    fn eq(&self, o: &Self) -> (r: bool) {
        match (self, o) {
            (Address::Ip { address: aa, port: ap }, Address::Ip { address: ba, port: bp }) => aa
                == ba && ap == bp,
            (
                Address::Bluetooth { address: aa, psm: ap },
                Address::Bluetooth { address: ba, psm: bp },
            ) => eq_bytes6(aa, ba) && ap == bp,
            _ => false,
        }
    }
}

impl Eq for Address {}

impl vstd::std_specs::cmp::PartialEqSpecImpl for Address {
    open spec fn obeys_eq_spec() -> bool {
        true
    }

    open spec fn eq_spec(&self, o: &Self) -> bool {
        self@ == o@
    }
}

impl PartialEq for Peer {
    fn eq(&self, o: &Self) -> (r: bool) {
        self.protocol == o.protocol && self.address == o.address
    }
}

impl Eq for Peer {}

impl vstd::std_specs::cmp::PartialEqSpecImpl for Peer {
    open spec fn obeys_eq_spec() -> bool {
        true
    }

    open spec fn eq_spec(&self, o: &Self) -> bool {
        self@ == o@
    }
}

// ---------------------------------------------------------------------
// Canonical text form
// ---------------------------------------------------------------------
/// Minimal decimal spelling of a value, as ASCII bytes.
pub open spec fn spec_dec_text(v: int) -> Seq<u8>
    recommends
        v >= 0,
    decreases v,
{
    if v < 10 {
        seq![(0x30 + v) as u8]
    } else {
        spec_dec_text(v / 10) + seq![(0x30 + v % 10) as u8]
    }
}

/// Minimal lowercase hex spelling of a value, as ASCII bytes.
pub open spec fn spec_hex_text(v: int) -> Seq<u8>
    recommends
        v >= 0,
    decreases v,
{
    if v < 16 {
        seq![crate::keys::spec_hex_digit(v as u8)]
    } else {
        spec_hex_text(v / 16) + seq![crate::keys::spec_hex_digit((v % 16) as u8)]
    }
}

/// The uppercase hex digit for a value below 16, as an ASCII byte.
pub open spec fn spec_hex_digit_upper(n: u8) -> u8 {
    if n < 10 {
        (0x30 + n) as u8
    } else {
        (0x37 + n) as u8
    }
}

/// The protocol's token in the peer text form.
pub open spec fn spec_protocol_text(p: Protocol) -> Seq<u8> {
    match p {
        Protocol::Udp => seq![0x75u8, 0x64u8, 0x70u8],
        Protocol::Tcp => seq![0x74u8, 0x63u8, 0x70u8],
        Protocol::Ws => seq![0x77u8, 0x73u8],
        Protocol::Wss => seq![0x77u8, 0x73u8, 0x73u8],
        Protocol::Bluetooth => seq![
            0x62u8,
            0x6cu8,
            0x75u8,
            0x65u8,
            0x74u8,
            0x6fu8,
            0x6fu8,
            0x74u8,
            0x68u8,
        ],
    }
}

/// The address part of the peer text: dotted decimal for IPv4, eight
/// colon-separated lowercase hex groups (never compressed) for IPv6.
pub open spec fn spec_address_text(a: IpModel) -> Seq<u8> {
    match a {
        IpModel::V4(b) => spec_dec_text(b[0] as int) + seq![0x2eu8] + spec_dec_text(b[1] as int)
            + seq![0x2eu8] + spec_dec_text(b[2] as int) + seq![0x2eu8] + spec_dec_text(b[3] as int),
        IpModel::V6(b) => spec_ipv6_groups(b, 0),
    }
}

/// IPv6 groups from position `i` on: two bytes per group, big endian.
pub open spec fn spec_ipv6_groups(b: Seq<u8>, i: int) -> Seq<u8>
    recommends
        b.len() == 16,
        0 <= i <= 8,
    decreases 8 - i,
{
    if i >= 8 {
        Seq::empty()
    } else {
        (if i > 0 {
            seq![0x3au8]
        } else {
            Seq::empty()
        }) + spec_hex_text(256 * b[2 * i] + b[2 * i + 1]) + spec_ipv6_groups(b, i + 1)
    }
}

/// The Bluetooth MAC as six uppercase two-digit hex pairs.
pub open spec fn spec_mac_text(b: Seq<u8>, i: int) -> Seq<u8>
    recommends
        b.len() == 6,
        0 <= i <= 6,
    decreases 6 - i,
{
    if i >= 6 {
        Seq::empty()
    } else {
        (if i > 0 {
            seq![0x3au8]
        } else {
            Seq::empty()
        }) + seq![spec_hex_digit_upper(b[i] / 16), spec_hex_digit_upper(b[i] % 16)]
            + spec_mac_text(b, i + 1)
    }
}

/// The canonical text form of a peer:
/// `/<protocol>/ip/<addr>/<port>` or
/// `/<protocol>/bluetooth/<mac>/<psm>`.
pub open spec fn spec_peer_text(p: PeerModel) -> Seq<u8> {
    seq![0x2fu8] + spec_protocol_text(p.protocol) + seq![0x2fu8] + (match p.address {
        AddressModel::Ip { address, port } => seq![0x69u8, 0x70u8, 0x2fu8] + spec_address_text(address)
            + seq![0x2fu8] + spec_dec_text(port as int),
        AddressModel::Bluetooth { address, psm } => seq![
            0x62u8,
            0x6cu8,
            0x75u8,
            0x65u8,
            0x74u8,
            0x6fu8,
            0x6fu8,
            0x74u8,
            0x68u8,
            0x2fu8,
        ] + spec_mac_text(address, 0) + seq![0x2fu8] + spec_dec_text(psm as int),
    })
}

/// Appends the minimal decimal spelling of `v`.
fn push_dec(out: &mut Vec<u8>, v: u16)
    ensures
        final(out)@ == old(out)@ + spec_dec_text(v as int),
    decreases v,
{
    if v < 10 {
        out.push(0x30 + v as u8);
        assert(out@ =~= old(out)@ + spec_dec_text(v as int));
    } else {
        push_dec(out, v / 10);
        out.push(0x30 + (v % 10) as u8);
        assert(out@ =~= old(out)@ + spec_dec_text(v as int));
    }
}

/// Appends the minimal lowercase hex spelling of `v`.
fn push_hex(out: &mut Vec<u8>, v: u16)
    ensures
        final(out)@ == old(out)@ + spec_hex_text(v as int),
    decreases v,
{
    if v < 16 {
        out.push(
            if v < 10 {
                0x30 + v as u8
            } else {
                0x57 + v as u8
            },
        );
        assert(out@ =~= old(out)@ + spec_hex_text(v as int));
    } else {
        push_hex(out, v / 16);
        let d = (v % 16) as u8;
        out.push(
            if d < 10 {
                0x30 + d
            } else {
                0x57 + d
            },
        );
        assert(out@ =~= old(out)@ + spec_hex_text(v as int));
    }
}

fn push_hex_pair_upper(out: &mut Vec<u8>, b: u8)
    ensures
        final(out)@ == old(out)@ + seq![
            spec_hex_digit_upper(b / 16),
            spec_hex_digit_upper(b % 16),
        ],
{
    let hi = b / 16;
    let lo = b % 16;
    out.push(
        if hi < 10 {
            0x30 + hi
        } else {
            0x37 + hi
        },
    );
    out.push(
        if lo < 10 {
            0x30 + lo
        } else {
            0x37 + lo
        },
    );
    assert(out@ =~= old(out)@ + seq![spec_hex_digit_upper(b / 16), spec_hex_digit_upper(b % 16)]);
}

impl Peer {
    /// The canonical text of this peer, as ASCII bytes: how a peer is
    /// displayed.
    #[verifier::rlimit(100)]
    pub fn text(&self) -> (r: Vec<u8>)
        ensures
            r@ == spec_peer_text(self@),
    {
        let mut out: Vec<u8> = Vec::new();
        out.push(0x2fu8);
        match self.protocol {
            Protocol::Udp => {
                out.push(0x75u8);
                out.push(0x64u8);
                out.push(0x70u8);
            },
            Protocol::Tcp => {
                out.push(0x74u8);
                out.push(0x63u8);
                out.push(0x70u8);
            },
            Protocol::Ws => {
                out.push(0x77u8);
                out.push(0x73u8);
            },
            Protocol::Wss => {
                out.push(0x77u8);
                out.push(0x73u8);
                out.push(0x73u8);
            },
            Protocol::Bluetooth => {
                push_bluetooth_word(&mut out);
            },
        }
        out.push(0x2fu8);
        proof {
            assert(out@ =~= seq![0x2fu8] + spec_protocol_text(self.protocol) + seq![0x2fu8]);
        }
        let ghost head = out@;
        match &self.address {
            Address::Ip { address, port } => {
                out.push(0x69u8);
                out.push(0x70u8);
                out.push(0x2fu8);
                match address {
                    IpAddress::V4(b) => {
                        push_dec(&mut out, b[0] as u16);
                        out.push(0x2eu8);
                        push_dec(&mut out, b[1] as u16);
                        out.push(0x2eu8);
                        push_dec(&mut out, b[2] as u16);
                        out.push(0x2eu8);
                        push_dec(&mut out, b[3] as u16);
                        proof {
                            assert(out@ =~= head + seq![0x69u8, 0x70u8, 0x2fu8] + spec_address_text(
                                address@,
                            ));
                        }
                    },
                    IpAddress::V6(b) => {
                        let mut i: usize = 0;
                        let ghost base = out@;
                        while i < 8
                            invariant
                                i <= 8,
                                b@.len() == 16,
                                out@ + spec_ipv6_groups(b@, i as int) == base + spec_ipv6_groups(
                                    b@,
                                    0,
                                ),
                            decreases 8 - i,
                        {
                            if i > 0 {
                                out.push(0x3au8);
                            }
                            let g: u16 = 256 * (b[2 * i] as u16) + b[2 * i + 1] as u16;
                            push_hex(&mut out, g);
                            i = i + 1;
                        }
                        proof {
                            assert(out@ =~= head + seq![0x69u8, 0x70u8, 0x2fu8] + spec_address_text(
                                address@,
                            ));
                        }
                    },
                }
                out.push(0x2fu8);
                push_dec(&mut out, *port);
                proof {
                    assert(out@ =~= spec_peer_text(self@));
                }
            },
            Address::Bluetooth { address, psm } => {
                push_bluetooth_word(&mut out);
                out.push(0x2fu8);
                let mut i: usize = 0;
                let ghost base = out@;
                while i < 6
                    invariant
                        i <= 6,
                        address@.len() == 6,
                        out@ + spec_mac_text(address@, i as int) == base + spec_mac_text(
                            address@,
                            0,
                        ),
                    decreases 6 - i,
                {
                    if i > 0 {
                        out.push(0x3au8);
                    }
                    push_hex_pair_upper(&mut out, address[i]);
                    i = i + 1;
                }
                out.push(0x2fu8);
                push_dec(&mut out, *psm);
                proof {
                    assert(out@ =~= spec_peer_text(self@));
                }
            },
        }
        out
    }
}

fn push_bluetooth_word(out: &mut Vec<u8>)
    ensures
        final(out)@ == old(out)@ + seq![0x62u8, 0x6cu8, 0x75u8, 0x65u8, 0x74u8, 0x6fu8, 0x6fu8, 0x74u8, 0x68u8],
{
    out.push(0x62u8);
    out.push(0x6cu8);
    out.push(0x75u8);
    out.push(0x65u8);
    out.push(0x74u8);
    out.push(0x6fu8);
    out.push(0x6fu8);
    out.push(0x74u8);
    out.push(0x68u8);
    assert(out@ =~= old(out)@ + seq![0x62u8, 0x6cu8, 0x75u8, 0x65u8, 0x74u8, 0x6fu8, 0x6fu8, 0x74u8, 0x68u8]);
}

// ---------------------------------------------------------------------
// Canonical text parse
// ---------------------------------------------------------------------
/// The first position at or after `i` holding `sep`, or the length.
pub open spec fn spec_find(s: Seq<u8>, i: int, sep: u8) -> int
    decreases s.len() - i,
{
    if i < 0 || i >= s.len() {
        s.len() as int
    } else if s[i] == sep {
        i
    } else {
        spec_find(s, i + 1, sep)
    }
}

/// ASCII lowercasing of one byte.
pub open spec fn spec_lower(b: u8) -> u8 {
    if 0x41 <= b <= 0x5a {
        (b + 0x20) as u8
    } else {
        b
    }
}

/// The protocol a token names, compared case-insensitively.
pub open spec fn spec_protocol_of(tok: Seq<u8>) -> Option<Protocol> {
    let low = tok.map_values(|b: u8| spec_lower(b));
    if low == spec_protocol_text(Protocol::Udp) {
        Some(Protocol::Udp)
    } else if low == spec_protocol_text(Protocol::Tcp) {
        Some(Protocol::Tcp)
    } else if low == spec_protocol_text(Protocol::Ws) {
        Some(Protocol::Ws)
    } else if low == spec_protocol_text(Protocol::Wss) {
        Some(Protocol::Wss)
    } else if low == spec_protocol_text(Protocol::Bluetooth) {
        Some(Protocol::Bluetooth)
    } else {
        None
    }
}

/// The value of a decimal digit byte; `None` otherwise.
pub open spec fn spec_dec_digit(b: u8) -> Option<u8> {
    if 0x30 <= b <= 0x39 {
        Some((b - 0x30) as u8)
    } else {
        None
    }
}

/// The value of a token of one to five decimal digits.
pub open spec fn spec_dec_token(tok: Seq<u8>) -> Option<int>
    decreases tok.len(),
{
    if tok.len() == 0 || tok.len() > 5 {
        None
    } else if tok.len() == 1 {
        match spec_dec_digit(tok[0]) {
            Some(d) => Some(d as int),
            None => None,
        }
    } else {
        match (spec_dec_token(tok.drop_last()), spec_dec_digit(tok.last())) {
            (Some(v), Some(d)) => Some(10 * v + d),
            _ => None,
        }
    }
}

/// The value of a token of one to four hex digits, either case.
pub open spec fn spec_hex_token(tok: Seq<u8>) -> Option<int>
    decreases tok.len(),
{
    if tok.len() == 0 || tok.len() > 4 {
        None
    } else if tok.len() == 1 {
        match crate::keys::spec_hex_val(tok[0]) {
            Some(d) => Some(d as int),
            None => None,
        }
    } else {
        match (spec_hex_token(tok.drop_last()), crate::keys::spec_hex_val(tok.last())) {
            (Some(v), Some(d)) => Some(16 * v + d),
            _ => None,
        }
    }
}

/// A dotted-decimal IPv4 address token.
pub open spec fn spec_parse_ipv4(tok: Seq<u8>) -> Option<Seq<u8>> {
    let e1 = spec_find(tok, 0, 0x2eu8);
    let e2 = spec_find(tok, e1 + 1, 0x2eu8);
    let e3 = spec_find(tok, e2 + 1, 0x2eu8);
    if e1 >= tok.len() || e2 >= tok.len() || e3 >= tok.len() || spec_find(tok, e3 + 1, 0x2eu8)
        != tok.len() {
        None
    } else {
        match (
            spec_dec_token(tok.subrange(0, e1)),
            spec_dec_token(tok.subrange(e1 + 1, e2)),
            spec_dec_token(tok.subrange(e2 + 1, e3)),
            spec_dec_token(tok.subrange(e3 + 1, tok.len() as int)),
        ) {
            (Some(a), Some(b), Some(c), Some(d)) => {
                if a <= 255 && b <= 255 && c <= 255 && d <= 255 {
                    Some(seq![a as u8, b as u8, c as u8, d as u8])
                } else {
                    None
                }
            },
            _ => None,
        }
    }
}

/// `count` colon-separated groups from position `i` on, two bytes per
/// hex group, reaching exactly the end of the token.
pub open spec fn spec_parse_groups(tok: Seq<u8>, i: int, count: int) -> Option<Seq<u8>>
    decreases count,
{
    if count <= 0 {
        None
    } else {
        let e = spec_find(tok, i, 0x3au8);
        match spec_hex_token(tok.subrange(if i < 0 {
            0
        } else if i > tok.len() {
            tok.len() as int
        } else {
            i
        }, e)) {
            Some(v) => {
                if count == 1 {
                    if e == tok.len() {
                        Some(seq![(v / 256) as u8, (v % 256) as u8])
                    } else {
                        None
                    }
                } else {
                    if e < tok.len() {
                        match spec_parse_groups(tok, e + 1, count - 1) {
                            Some(rest) => Some(
                                seq![(v / 256) as u8, (v % 256) as u8] + rest,
                            ),
                            None => None,
                        }
                    } else {
                        None
                    }
                }
            },
            None => None,
        }
    }
}

/// An IPv6 address token: exactly eight hex groups, never compressed.
/// This is the canonical spelling [`spec_address_text`] emits;
/// `::`-compressed forms are not part of the canonical grammar.
pub open spec fn spec_parse_ipv6(tok: Seq<u8>) -> Option<Seq<u8>> {
    spec_parse_groups(tok, 0, 8)
}

/// A Bluetooth MAC token: six colon-separated pairs of hex digits.
pub open spec fn spec_parse_mac(tok: Seq<u8>, i: int, count: int) -> Option<Seq<u8>>
    decreases count,
{
    if count <= 0 {
        None
    } else {
        let e = spec_find(tok, i, 0x3au8);
        let g = tok.subrange(if i < 0 {
            0
        } else if i > tok.len() {
            tok.len() as int
        } else {
            i
        }, e);
        if g.len() != 2 {
            None
        } else {
            match spec_hex_token(g) {
                Some(v) => {
                    if count == 1 {
                        if e == tok.len() {
                            Some(seq![v as u8])
                        } else {
                            None
                        }
                    } else {
                        if e < tok.len() {
                            match spec_parse_mac(tok, e + 1, count - 1) {
                                Some(rest) => Some(seq![v as u8] + rest),
                                None => None,
                            }
                        } else {
                            None
                        }
                    }
                },
                None => None,
            }
        }
    }
}

/// The peer a canonical text denotes: `/<protocol>/ip/<addr>/<port>` or
/// `/<protocol>/bluetooth/<mac>/<psm>`, protocol and family tokens
/// case-insensitive.
pub open spec fn spec_parse_peer_text(s: Seq<u8>) -> Option<PeerModel> {
    if s.len() == 0 || s[0] != 0x2fu8 {
        None
    } else {
        let e1 = spec_find(s, 1, 0x2fu8);
        let e2 = spec_find(s, e1 + 1, 0x2fu8);
        let e3 = spec_find(s, e2 + 1, 0x2fu8);
        if e1 >= s.len() || e2 >= s.len() || e3 >= s.len() || spec_find(s, e3 + 1, 0x2fu8)
            != s.len() {
            None
        } else {
            match (
                spec_protocol_of(s.subrange(1, e1)),
                spec_dec_token(s.subrange(e3 + 1, s.len() as int)),
            ) {
                (Some(protocol), Some(pv)) => {
                    if pv > 65535 {
                        None
                    } else {
                        let fam = s.subrange(e1 + 1, e2).map_values(|b: u8| spec_lower(b));
                        let addr = s.subrange(e2 + 1, e3);
                        if fam == seq![0x69u8, 0x70u8] || fam == seq![
                            0x69u8,
                            0x70u8,
                            0x76u8,
                            0x34u8,
                        ] || fam == seq![0x69u8, 0x70u8, 0x76u8, 0x36u8] {
                            let ip = if fam == seq![0x69u8, 0x70u8, 0x76u8, 0x34u8] {
                                match spec_parse_ipv4(addr) {
                                    Some(b) => Some(IpModel::V4(b)),
                                    None => None,
                                }
                            } else if fam == seq![0x69u8, 0x70u8, 0x76u8, 0x36u8] {
                                match spec_parse_ipv6(addr) {
                                    Some(b) => Some(IpModel::V6(b)),
                                    None => None,
                                }
                            } else if spec_find(addr, 0, 0x3au8) == addr.len() {
                                match spec_parse_ipv4(addr) {
                                    Some(b) => Some(IpModel::V4(b)),
                                    None => None,
                                }
                            } else {
                                match spec_parse_ipv6(addr) {
                                    Some(b) => Some(IpModel::V6(b)),
                                    None => None,
                                }
                            };
                            match ip {
                                Some(address) => Some(
                                    PeerModel {
                                        protocol,
                                        address: AddressModel::Ip { address, port: pv as u16 },
                                    },
                                ),
                                None => None,
                            }
                        } else if fam == seq![
                            0x62u8,
                            0x6cu8,
                            0x75u8,
                            0x65u8,
                            0x74u8,
                            0x6fu8,
                            0x6fu8,
                            0x74u8,
                            0x68u8,
                        ] {
                            match spec_parse_mac(addr, 0, 6) {
                                Some(mac) => Some(
                                    PeerModel {
                                        protocol,
                                        address: AddressModel::Bluetooth {
                                            address: mac,
                                            psm: pv as u16,
                                        },
                                    },
                                ),
                                None => None,
                            }
                        } else {
                            None
                        }
                    }
                },
                _ => None,
            }
        }
    }
}

/// Finds `sep` in `s` at or after `i`; returns the length when absent.
fn find_byte(s: &[u8], i: usize, sep: u8) -> (r: usize)
    requires
        i <= s@.len(),
    ensures
        r == spec_find(s@, i as int, sep),
        i <= r <= s@.len(),
{
    let n = s.len();
    let mut cur = i;
    while cur < n
        invariant
            i <= cur <= n,
            n == s@.len(),
            spec_find(s@, i as int, sep) == spec_find(s@, cur as int, sep),
            forall|q: int| i <= q < cur ==> s@[q] != sep,
        decreases n - cur,
    {
        if s[cur] == sep {
            return cur;
        }
        cur = cur + 1;
    }
    cur
}

/// Powers of ten and sixteen for the short-token value bounds.
pub open spec fn spec_p10(n: int) -> int {
    if n <= 0 {
        1
    } else if n == 1 {
        10
    } else if n == 2 {
        100
    } else if n == 3 {
        1000
    } else if n == 4 {
        10000
    } else {
        100000
    }
}

pub open spec fn spec_p16(n: int) -> int {
    if n <= 0 {
        1
    } else if n == 1 {
        16
    } else if n == 2 {
        256
    } else if n == 3 {
        4096
    } else {
        65536
    }
}

/// A short decimal token's value is below ten to its length.
proof fn lemma_dec_token_bound(tok: Seq<u8>)
    requires
        spec_dec_token(tok) is Some,
    ensures
        0 <= spec_dec_token(tok).unwrap() < spec_p10(tok.len() as int),
    decreases tok.len(),
{
    if tok.len() > 1 {
        lemma_dec_token_bound(tok.drop_last());
    }
}

/// A short hex token's value is below sixteen to its length.
proof fn lemma_hex_token_bound(tok: Seq<u8>)
    requires
        spec_hex_token(tok) is Some,
    ensures
        0 <= spec_hex_token(tok).unwrap() < spec_p16(tok.len() as int),
    decreases tok.len(),
{
    if tok.len() > 1 {
        lemma_hex_token_bound(tok.drop_last());
    }
}

/// A decimal digit at a bad position fails the whole token.
proof fn lemma_dec_token_bad(tok: Seq<u8>, q: int)
    requires
        0 <= q < tok.len(),
        tok.len() <= 5,
        spec_dec_digit(tok[q]) is None,
    ensures
        spec_dec_token(tok) is None,
    decreases tok.len(),
{
    if tok.len() > 1 && q < tok.len() - 1 {
        lemma_dec_token_bad(tok.drop_last(), q);
    }
}

/// A hex digit at a bad position fails the whole token.
proof fn lemma_hex_token_bad(tok: Seq<u8>, q: int)
    requires
        0 <= q < tok.len(),
        tok.len() <= 4,
        crate::keys::spec_hex_val(tok[q]) is None,
    ensures
        spec_hex_token(tok) is None,
    decreases tok.len(),
{
    if tok.len() > 1 && q < tok.len() - 1 {
        lemma_hex_token_bad(tok.drop_last(), q);
    }
}

/// The value of a one-to-five-digit decimal token.
fn dec_token(tok: &[u8]) -> (r: Option<u32>)
    ensures
        match r {
            Some(v) => spec_dec_token(tok@) == Some(v as int),
            None => spec_dec_token(tok@) is None,
        },
{
    if tok.len() == 0 || tok.len() > 5 {
        return None;
    }
    let mut acc: u32 = 0;
    let mut k: usize = 0;
    while k < tok.len()
        invariant
            k <= tok@.len(),
            1 <= tok@.len() <= 5,
            k > 0 ==> spec_dec_token(tok@.take(k as int)) == Some(acc as int),
            k == 0 ==> acc == 0,
            acc < spec_p10(k as int),
        decreases tok@.len() - k,
    {
        let b = tok[k];
        if b < 0x30 || b > 0x39 {
            proof {
                lemma_dec_token_bad(tok@, k as int);
            }
            return None;
        }
        proof {
            assert(tok@.take(k + 1).drop_last() =~= tok@.take(k as int));
        }
        acc = acc * 10 + (b - 0x30) as u32;
        proof {
            lemma_dec_token_bound(tok@.take((k + 1) as int));
        }
        k = k + 1;
    }
    proof {
        assert(tok@.take(tok@.len() as int) =~= tok@);
    }
    Some(acc)
}

/// The value of a one-to-four-digit hex token, either case.
fn hex_token(tok: &[u8]) -> (r: Option<u16>)
    ensures
        match r {
            Some(v) => spec_hex_token(tok@) == Some(v as int),
            None => spec_hex_token(tok@) is None,
        },
{
    if tok.len() == 0 || tok.len() > 4 {
        return None;
    }
    let mut acc: u16 = 0;
    let mut k: usize = 0;
    while k < tok.len()
        invariant
            k <= tok@.len(),
            1 <= tok@.len() <= 4,
            k > 0 ==> spec_hex_token(tok@.take(k as int)) == Some(acc as int),
            k == 0 ==> acc == 0,
            acc < spec_p16(k as int),
        decreases tok@.len() - k,
    {
        let d = match crate::keys::hex_val(tok[k]) {
            Some(d) => d,
            None => {
                proof {
                    lemma_hex_token_bad(tok@, k as int);
                }
                return None;
            },
        };
        proof {
            assert(tok@.take(k + 1).drop_last() =~= tok@.take(k as int));
        }
        acc = acc * 16 + d as u16;
        proof {
            lemma_hex_token_bound(tok@.take((k + 1) as int));
        }
        k = k + 1;
    }
    proof {
        assert(tok@.take(tok@.len() as int) =~= tok@);
    }
    Some(acc)
}

/// Reads `count` colon-separated hex groups from `i` to the token's end.
fn read_groups(tok: &[u8], i: usize, count: usize) -> (r: Option<Vec<u8>>)
    requires
        i <= tok@.len(),
        count >= 1,
    ensures
        match r {
            Some(v) => spec_parse_groups(tok@, i as int, count as int) == Some(v@),
            None => spec_parse_groups(tok@, i as int, count as int) is None,
        },
    decreases count,
{
    let e = find_byte(tok, i, 0x3au8);
    let g = crate::wire::read_raw(tok, i, e - i);
    let v = match hex_token(g.as_slice()) {
        Some(v) => v,
        None => {
            return None;
        },
    };
    if count == 1 {
        if e == tok.len() {
            let mut out: Vec<u8> = Vec::new();
            out.push((v / 256) as u8);
            out.push((v % 256) as u8);
            proof {
                assert(out@ =~= seq![(v as int / 256) as u8, (v as int % 256) as u8]);
            }
            Some(out)
        } else {
            None
        }
    } else {
        if e < tok.len() {
            match read_groups(tok, e + 1, count - 1) {
                Some(rest) => {
                    let mut out: Vec<u8> = Vec::new();
                    out.push((v / 256) as u8);
                    out.push((v % 256) as u8);
                    let mut q: usize = 0;
                    while q < rest.len()
                        invariant
                            q <= rest@.len(),
                            out@ == seq![
                                ((v as int) / 256) as u8,
                                ((v as int) % 256) as u8,
                            ] + rest@.take(q as int),
                        decreases rest@.len() - q,
                    {
                        out.push(rest[q]);
                        proof {
                            assert(out@ =~= seq![
                                ((v as int) / 256) as u8,
                                ((v as int) % 256) as u8,
                            ] + rest@.take(q + 1));
                        }
                        q = q + 1;
                    }
                    proof {
                        assert(rest@.take(rest@.len() as int) =~= rest@);
                    }
                    Some(out)
                },
                None => None,
            }
        } else {
            None
        }
    }
}

/// Reads `count` colon-separated two-digit hex pairs.
fn read_mac(tok: &[u8], i: usize, count: usize) -> (r: Option<Vec<u8>>)
    requires
        i <= tok@.len(),
        count >= 1,
    ensures
        match r {
            Some(v) => spec_parse_mac(tok@, i as int, count as int) == Some(v@),
            None => spec_parse_mac(tok@, i as int, count as int) is None,
        },
    decreases count,
{
    let e = find_byte(tok, i, 0x3au8);
    if e - i != 2 {
        return None;
    }
    let g = crate::wire::read_raw(tok, i, 2);
    let v = match hex_token(g.as_slice()) {
        Some(v) => v,
        None => {
            return None;
        },
    };
    if count == 1 {
        if e == tok.len() {
            let mut out: Vec<u8> = Vec::new();
            out.push(v as u8);
            proof {
                lemma_hex_token_bound(g@);
                assert(out@ =~= seq![(v as int) as u8]);
            }
            Some(out)
        } else {
            None
        }
    } else {
        if e < tok.len() {
            match read_mac(tok, e + 1, count - 1) {
                Some(rest) => {
                    let mut out: Vec<u8> = Vec::new();
                    proof {
                        lemma_hex_token_bound(g@);
                    }
                    out.push(v as u8);
                    let mut q: usize = 0;
                    while q < rest.len()
                        invariant
                            q <= rest@.len(),
                            out@ == seq![((v as int) as u8)] + rest@.take(q as int),
                        decreases rest@.len() - q,
                    {
                        out.push(rest[q]);
                        proof {
                            assert(out@ =~= seq![((v as int) as u8)] + rest@.take(q + 1));
                        }
                        q = q + 1;
                    }
                    proof {
                        assert(rest@.take(rest@.len() as int) =~= rest@);
                    }
                    Some(out)
                },
                None => None,
            }
        } else {
            None
        }
    }
}

/// Lowercases an ASCII token.
fn lower_token(tok: &[u8]) -> (r: Vec<u8>)
    ensures
        r@ == tok@.map_values(|b: u8| spec_lower(b)),
{
    let mut out: Vec<u8> = Vec::new();
    let mut k: usize = 0;
    while k < tok.len()
        invariant
            k <= tok@.len(),
            out@ == tok@.map_values(|b: u8| spec_lower(b)).take(k as int),
        decreases tok@.len() - k,
    {
        let b = tok[k];
        out.push(
            if 0x41 <= b && b <= 0x5a {
                b + 0x20
            } else {
                b
            },
        );
        proof {
            assert(out@ =~= tok@.map_values(|b: u8| spec_lower(b)).take(k + 1));
        }
        k = k + 1;
    }
    proof {
        let m = tok@.map_values(|b: u8| spec_lower(b));
        assert(m.take(m.len() as int) =~= m);
    }
    out
}

/// Parses the canonical text of a peer; the exact inverse grammar of
/// [`Peer::text`], with case-insensitive protocol and family tokens.
#[verifier::rlimit(100)]
pub fn parse_peer_text(s: &[u8]) -> (r: Option<Peer>)
    ensures
        match r {
            Some(p) => spec_parse_peer_text(s@) == Some(p@) && p@.wf(),
            None => spec_parse_peer_text(s@) is None,
        },
{
    if s.len() == 0 {
        return None;
    }
    if s[0] != 0x2fu8 {
        return None;
    }
    let e1 = find_byte(s, 1, 0x2fu8);
    if e1 >= s.len() {
        return None;
    }
    let e2 = find_byte(s, e1 + 1, 0x2fu8);
    if e2 >= s.len() {
        return None;
    }
    let e3 = find_byte(s, e2 + 1, 0x2fu8);
    if e3 >= s.len() {
        return None;
    }
    if find_byte(s, e3 + 1, 0x2fu8) != s.len() {
        return None;
    }
    let proto_tok = lower_token(crate::wire::read_raw(s, 1, e1 - 1).as_slice());
    let protocol = match protocol_of(proto_tok.as_slice()) {
        Some(p) => p,
        None => {
            proof {
                assert(proto_tok@ == s@.subrange(1, e1 as int).map_values(|b: u8| spec_lower(b)));
            }
            return None;
        },
    };
    let port_tok = crate::wire::read_raw(s, e3 + 1, s.len() - (e3 + 1));
    let pv = match dec_token(port_tok.as_slice()) {
        Some(v) => v,
        None => {
            return None;
        },
    };
    if pv > 65535 {
        return None;
    }
    let fam = lower_token(crate::wire::read_raw(s, e1 + 1, e2 - (e1 + 1)).as_slice());
    let addr = crate::wire::read_raw(s, e2 + 1, e3 - (e2 + 1));
    let is_plain_ip = fam.len() == 2 && fam[0] == 0x69 && fam[1] == 0x70;
    let is_ip4 = fam.len() == 4 && fam[0] == 0x69 && fam[1] == 0x70 && fam[2] == 0x76 && fam[3]
        == 0x34;
    let is_ip6 = fam.len() == 4 && fam[0] == 0x69 && fam[1] == 0x70 && fam[2] == 0x76 && fam[3]
        == 0x36;
    let is_ip = is_plain_ip || is_ip4 || is_ip6;
    let is_bt = fam.len() == 9 && fam[0] == 0x62 && fam[1] == 0x6c && fam[2] == 0x75 && fam[3]
        == 0x65 && fam[4] == 0x74 && fam[5] == 0x6f && fam[6] == 0x6f && fam[7] == 0x74 && fam[8]
        == 0x68;
    proof {
        let fs = s@.subrange(e1 + 1, e2 as int).map_values(|b: u8| spec_lower(b));
        if is_plain_ip {
            assert(fs =~= seq![0x69u8, 0x70u8]);
        } else {
            assert(fs != seq![0x69u8, 0x70u8]) by {
                if fs == seq![0x69u8, 0x70u8] {
                    assert(fam@[0] == 0x69u8 && fam@[1] == 0x70u8);
                }
            }
        }
        if is_ip4 {
            assert(fs =~= seq![0x69u8, 0x70u8, 0x76u8, 0x34u8]);
        } else {
            assert(fs != seq![0x69u8, 0x70u8, 0x76u8, 0x34u8]) by {
                if fs == seq![0x69u8, 0x70u8, 0x76u8, 0x34u8] {
                    assert(fam@[0] == 0x69u8 && fam@[1] == 0x70u8 && fam@[2] == 0x76u8 && fam@[3]
                        == 0x34u8);
                }
            }
        }
        if is_ip6 {
            assert(fs =~= seq![0x69u8, 0x70u8, 0x76u8, 0x36u8]);
        } else {
            assert(fs != seq![0x69u8, 0x70u8, 0x76u8, 0x36u8]) by {
                if fs == seq![0x69u8, 0x70u8, 0x76u8, 0x36u8] {
                    assert(fam@[0] == 0x69u8 && fam@[1] == 0x70u8 && fam@[2] == 0x76u8 && fam@[3]
                        == 0x36u8);
                }
            }
        }
        if is_bt {
            assert(fs =~= seq![
                0x62u8,
                0x6cu8,
                0x75u8,
                0x65u8,
                0x74u8,
                0x6fu8,
                0x6fu8,
                0x74u8,
                0x68u8,
            ]);
        } else {
            assert(fs != seq![
                0x62u8,
                0x6cu8,
                0x75u8,
                0x65u8,
                0x74u8,
                0x6fu8,
                0x6fu8,
                0x74u8,
                0x68u8,
            ]) by {
                if fs == seq![
                    0x62u8,
                    0x6cu8,
                    0x75u8,
                    0x65u8,
                    0x74u8,
                    0x6fu8,
                    0x6fu8,
                    0x74u8,
                    0x68u8,
                ] {
                    assert(fam@[0] == 0x62u8 && fam@[1] == 0x6cu8 && fam@[2] == 0x75u8 && fam@[3]
                        == 0x65u8 && fam@[4] == 0x74u8 && fam@[5] == 0x6fu8 && fam@[6] == 0x6fu8
                        && fam@[7] == 0x74u8 && fam@[8] == 0x68u8);
                }
            }
        }
    }
    if is_ip {
        if is_ip4 || (is_plain_ip && find_byte(addr.as_slice(), 0, 0x3au8) == addr.len()) {
            let o = match read_ipv4(addr.as_slice()) {
                Some(o) => o,
                None => {
                    return None;
                },
            };
            Some(
                Peer {
                    protocol,
                    address: Address::Ip { address: IpAddress::V4(o), port: pv as u16 },
                },
            )
        } else {
            let bytes = match read_groups(addr.as_slice(), 0, 8) {
                Some(b) => b,
                None => {
                    return None;
                },
            };
            proof {
                lemma_groups_len(addr@, 0, 8);
            }
            let mut arr = [0u8; 16];
            let mut q: usize = 0;
            while q < 16
                invariant
                    q <= 16,
                    bytes@.len() == 16,
                    forall|t: int| 0 <= t < q ==> arr@[t] == bytes@[t],
                decreases 16 - q,
            {
                arr[q] = bytes[q];
                q = q + 1;
            }
            proof {
                assert(arr@ =~= bytes@);
            }
            Some(
                Peer {
                    protocol,
                    address: Address::Ip { address: IpAddress::V6(arr), port: pv as u16 },
                },
            )
        }
    } else if is_bt {
        let bytes = match read_mac(addr.as_slice(), 0, 6) {
            Some(b) => b,
            None => {
                return None;
            },
        };
        proof {
            lemma_mac_len(addr@, 0, 6);
        }
        let mut arr = [0u8; 6];
        let mut q: usize = 0;
        while q < 6
            invariant
                q <= 6,
                bytes@.len() == 6,
                forall|t: int| 0 <= t < q ==> arr@[t] == bytes@[t],
            decreases 6 - q,
        {
            arr[q] = bytes[q];
            q = q + 1;
        }
        proof {
            assert(arr@ =~= bytes@);
        }
        Some(
            Peer {
                protocol,
                address: Address::Bluetooth { address: arr, psm: pv as u16 },
            },
        )
    } else {
        None
    }
}

/// A dotted-decimal IPv4 token.
fn read_ipv4(tok: &[u8]) -> (r: Option<[u8; 4]>)
    ensures
        match r {
            Some(o) => spec_parse_ipv4(tok@) == Some(o@),
            None => spec_parse_ipv4(tok@) is None,
        },
{
    let e1 = find_byte(tok, 0, 0x2eu8);
    if e1 >= tok.len() {
        return None;
    }
    let e2 = find_byte(tok, e1 + 1, 0x2eu8);
    if e2 >= tok.len() {
        return None;
    }
    let e3 = find_byte(tok, e2 + 1, 0x2eu8);
    if e3 >= tok.len() {
        return None;
    }
    if find_byte(tok, e3 + 1, 0x2eu8) != tok.len() {
        return None;
    }
    let a = match dec_token(crate::wire::read_raw(tok, 0, e1).as_slice()) {
        Some(v) => v,
        None => {
            return None;
        },
    };
    let b = match dec_token(crate::wire::read_raw(tok, e1 + 1, e2 - (e1 + 1)).as_slice()) {
        Some(v) => v,
        None => {
            return None;
        },
    };
    let c = match dec_token(crate::wire::read_raw(tok, e2 + 1, e3 - (e2 + 1)).as_slice()) {
        Some(v) => v,
        None => {
            return None;
        },
    };
    let d = match dec_token(crate::wire::read_raw(tok, e3 + 1, tok.len() - (e3 + 1)).as_slice()) {
        Some(v) => v,
        None => {
            return None;
        },
    };
    if a > 255 || b > 255 || c > 255 || d > 255 {
        return None;
    }
    let arr = [a as u8, b as u8, c as u8, d as u8];
    proof {
        assert(arr@ =~= seq![a as u8, b as u8, c as u8, d as u8]);
    }
    Some(arr)
}

/// The protocol a lowercased token names.
fn protocol_of(low: &[u8]) -> (r: Option<Protocol>)
    requires
        forall|q: int| 0 <= q < low@.len() ==> low@[q] == spec_lower(low@[q]),
    ensures
        ({
            let m = low@;
            &&& (r matches Some(p) ==> m == spec_protocol_text(p) && spec_protocol_of_lower(m)
                == Some(p))
            &&& (r is None ==> spec_protocol_of_lower(m) is None)
        }),
{
    if low.len() == 3 && low[0] == 0x75 && low[1] == 0x64 && low[2] == 0x70 {
        proof {
            assert(low@ =~= spec_protocol_text(Protocol::Udp));
        }
        Some(Protocol::Udp)
    } else if low.len() == 3 && low[0] == 0x74 && low[1] == 0x63 && low[2] == 0x70 {
        proof {
            assert(low@ =~= spec_protocol_text(Protocol::Tcp));
        }
        Some(Protocol::Tcp)
    } else if low.len() == 2 && low[0] == 0x77 && low[1] == 0x73 {
        proof {
            assert(low@ =~= spec_protocol_text(Protocol::Ws));
        }
        Some(Protocol::Ws)
    } else if low.len() == 3 && low[0] == 0x77 && low[1] == 0x73 && low[2] == 0x73 {
        proof {
            assert(low@ =~= spec_protocol_text(Protocol::Wss));
        }
        Some(Protocol::Wss)
    } else if low.len() == 9 && low[0] == 0x62 && low[1] == 0x6c && low[2] == 0x75 && low[3]
        == 0x65 && low[4] == 0x74 && low[5] == 0x6f && low[6] == 0x6f && low[7] == 0x74 && low[8]
        == 0x68 {
        proof {
            assert(low@ =~= spec_protocol_text(Protocol::Bluetooth));
        }
        Some(Protocol::Bluetooth)
    } else {
        proof {
            lemma_protocol_of_none(low@);
        }
        None
    }
}

/// The protocol an already-lowercased token names.
pub open spec fn spec_protocol_of_lower(low: Seq<u8>) -> Option<Protocol> {
    if low == spec_protocol_text(Protocol::Udp) {
        Some(Protocol::Udp)
    } else if low == spec_protocol_text(Protocol::Tcp) {
        Some(Protocol::Tcp)
    } else if low == spec_protocol_text(Protocol::Ws) {
        Some(Protocol::Ws)
    } else if low == spec_protocol_text(Protocol::Wss) {
        Some(Protocol::Wss)
    } else if low == spec_protocol_text(Protocol::Bluetooth) {
        Some(Protocol::Bluetooth)
    } else {
        None
    }
}

proof fn lemma_protocol_of_none(low: Seq<u8>)
    requires
        !(low.len() == 3 && low[0] == 0x75 && low[1] == 0x64 && low[2] == 0x70),
        !(low.len() == 3 && low[0] == 0x74 && low[1] == 0x63 && low[2] == 0x70),
        !(low.len() == 2 && low[0] == 0x77 && low[1] == 0x73),
        !(low.len() == 3 && low[0] == 0x77 && low[1] == 0x73 && low[2] == 0x73),
        !(low.len() == 9 && low[0] == 0x62 && low[1] == 0x6c && low[2] == 0x75 && low[3] == 0x65
            && low[4] == 0x74 && low[5] == 0x6f && low[6] == 0x6f && low[7] == 0x74 && low[8]
            == 0x68),
    ensures
        spec_protocol_of_lower(low) is None,
{
}

/// Eight parsed groups hold sixteen bytes; six pairs hold six.
proof fn lemma_groups_len(tok: Seq<u8>, i: int, count: int)
    requires
        spec_parse_groups(tok, i, count) is Some,
        count >= 1,
    ensures
        spec_parse_groups(tok, i, count).unwrap().len() == 2 * count,
    decreases count,
{
    if count > 1 {
        let e = spec_find(tok, i, 0x3au8);
        lemma_groups_len(tok, e + 1, count - 1);
    }
}

proof fn lemma_mac_len(tok: Seq<u8>, i: int, count: int)
    requires
        spec_parse_mac(tok, i, count) is Some,
        count >= 1,
    ensures
        spec_parse_mac(tok, i, count).unwrap().len() == count,
    decreases count,
{
    if count > 1 {
        let e = spec_find(tok, i, 0x3au8);
        lemma_mac_len(tok, e + 1, count - 1);
    }
}

/// A six-byte ASCII tag naming an application over IPC.
#[derive(Clone, Debug, PartialEq, Eq)]
pub struct ApplicationId(pub Vec<u8>);

impl ApplicationId {
    /// An application id holds at most six bytes.
    pub open spec fn wf(&self) -> bool {
        self.0@.len() <= 6
    }
}

impl View for ApplicationId {
    type V = Seq<u8>;

    open spec fn view(&self) -> Seq<u8> {
        self.0@
    }
}

} // verus!
