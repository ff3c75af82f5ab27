//! Addresses, and the ranges they fall into.
use crate::text;
use vstd::prelude::*;

verus! {

/// An IP address, as the number that its bits spell.
#[derive(Debug, Clone, Copy, PartialEq, Eq, Structural)]
pub enum IpAddr {
    V4(u32),
    V6(u128),
}

/// An address and a port. `scope` is the zone of an IPv6 address, and 0 where
/// none is given.
#[derive(Debug, Clone, Copy, PartialEq, Eq, Structural)]
pub struct SocketAddr {
    pub ip: IpAddr,
    pub port: u16,
    pub scope: u32,
}

/// A range of addresses: those that share the first `len` bits of `first`.
#[derive(Debug, Clone, Copy, PartialEq, Eq, Structural)]
pub struct IpCidr {
    pub first: IpAddr,
    pub len: u8,
}

/// `2` to the `n`.
pub open spec fn two_to(n: nat) -> nat {
    vstd::arithmetic::power2::pow2(n)
}

impl IpCidr {
    /// Is the prefix no longer than an address of the family?
    pub open spec fn well_formed(self) -> bool {
        match self.first {
            IpAddr::V4(_) => self.len <= 32,
            IpAddr::V6(_) => self.len <= 128,
        }
    }

    /// The addresses in the range: of the same family, with the same prefix.
    pub open spec fn holds(self, ip: IpAddr) -> bool {
        match (self.first, ip) {
            (IpAddr::V4(a), IpAddr::V4(b)) => a as nat / two_to((32 - self.len) as nat) == b as nat
                / two_to((32 - self.len) as nat),
            (IpAddr::V6(a), IpAddr::V6(b)) => a as nat / two_to((128 - self.len) as nat)
                == b as nat / two_to((128 - self.len) as nat),
            _ => false,
        }
    }

    /// Does the address fall into the range?
    pub fn contains(&self, ip: &IpAddr) -> (r: bool)
        requires
            self.well_formed(),
        ensures
            r == self.holds(*ip),
    {
        match (self.first, *ip) {
            (IpAddr::V4(a), IpAddr::V4(b)) => prefix_match(
                a as u128,
                b as u128,
                32,
                self.len,
            ),
            (IpAddr::V6(a), IpAddr::V6(b)) => prefix_match(a, b, 128, self.len),
            _ => false,
        }
    }
}

/// Do two numbers of `width` bits agree in the first `len` of them?
fn prefix_match(a: u128, b: u128, width: u8, len: u8) -> (r: bool)
    requires
        len <= width <= 128,
    ensures
        r == (a as nat / two_to((width - len) as nat) == b as nat / two_to(
            (width - len) as nat,
        )),
{
    let shift: u8 = width - len;
    if shift == 128 {
        proof {
            vstd::arithmetic::power2::lemma2_to64_rest();
            vstd::arithmetic::power2::lemma_pow2_adds(64, 64);
            assert(two_to(64) == 0x1_0000_0000_0000_0000);
            assert(0x1_0000_0000_0000_0000 * 0x1_0000_0000_0000_0000
                == 0x1_0000_0000_0000_0000_0000_0000_0000_0000) by (nonlinear_arith);
            vstd::arithmetic::div_mod::lemma_basic_div(a as int, two_to(128) as int);
            vstd::arithmetic::div_mod::lemma_basic_div(b as int, two_to(128) as int);
        }
        return true;
    }
    proof {
        vstd::bits::lemma_u128_shr_is_div(a, shift as u128);
        vstd::bits::lemma_u128_shr_is_div(b, shift as u128);
    }
    (a >> (shift as u128)) == (b >> (shift as u128))
}

/// The range that `cidr::IpCidr::from_str` reads out of a text, or its account
/// of why the text names none.
pub uninterp spec fn parsed_cidr(s: Seq<char>) -> Result<IpCidr, Seq<char>>;

/// `cidr::IpCidr::from_str` is a function of the text alone, and the prefix of
/// a range that it reads is no longer than an address.
#[verifier::external_body]
pub(crate) fn parse_cidr(s: &str) -> (r: Result<IpCidr, String>)
    ensures
        match r {
            Ok(c) => parsed_cidr(s@) == Ok::<IpCidr, Seq<char>>(c) && c.well_formed(),
            Err(e) => parsed_cidr(s@) == Err::<IpCidr, Seq<char>>(e@),
        },
{
    match s.parse::<cidr::IpCidr>() {
        Ok(cidr::IpCidr::V4(c)) => Ok(
            IpCidr { first: IpAddr::V4(u32::from(c.first_address())), len: c.network_length() },
        ),
        Ok(cidr::IpCidr::V6(c)) => Ok(
            IpCidr { first: IpAddr::V6(u128::from(c.first_address())), len: c.network_length() },
        ),
        Err(e) => Err(e.to_string()),
    }
}

/// The address that a text spells: a range of one address, written without a
/// prefix length.
pub open spec fn ip_of(s: Seq<char>) -> Option<IpAddr> {
    if s.contains('/') {
        None
    } else {
        match parsed_cidr(s) {
            Ok(c) => Some(c.first),
            Err(_) => None,
        }
    }
}

/// Reads an IP address.
pub fn parse_ip(s: &str) -> (r: Option<IpAddr>)
    ensures
        r == ip_of(s@),
{
    if text::has_char(s, '/') {
        return None;
    }
    match parse_cidr(s) {
        Ok(c) => Some(c.first),
        Err(_) => None,
    }
}

/// The text that `cidr`'s addresses are written as.
pub uninterp spec fn ip_text(ip: IpAddr) -> Seq<char>;

/// The address of `cidr::Ipv4Cidr::new_host` and `cidr::Ipv6Cidr::new_host`,
/// written out: a function of the address alone.
#[verifier::external_body]
fn write_ip(ip: &IpAddr) -> (r: String)
    ensures
        r@ == ip_text(*ip),
{
    match ip {
        IpAddr::V4(a) => cidr::Ipv4Cidr::new_host((*a).into()).first_address().to_string(),
        IpAddr::V6(a) => cidr::Ipv6Cidr::new_host((*a).into()).first_address().to_string(),
    }
}

/// A socket address written out.
pub open spec fn addr_text(addr: SocketAddr) -> Seq<char> {
    let ip = ip_text(addr.ip);
    let port = text::decimal(addr.port as nat);
    match addr.ip {
        IpAddr::V4(_) => ip + ":"@ + port,
        IpAddr::V6(_) => if addr.scope == 0 {
            "["@ + ip + "]:"@ + port
        } else {
            "["@ + ip + "%"@ + text::decimal(addr.scope as nat) + "]:"@ + port
        },
    }
}

impl IpAddr {
    /// The address written out.
    pub fn to_text(&self) -> (r: String)
        ensures
            r@ == ip_text(*self),
    {
        write_ip(self)
    }
}

impl SocketAddr {
    /// The address and the port written out.
    pub fn to_text(&self) -> (r: String)
        ensures
            r@ == addr_text(*self),
    {
        let ip = write_ip(&self.ip);
        let port = text::decimal_text(self.port as u128);
        match self.ip {
            IpAddr::V4(_) => text::concat3(ip.as_str(), ":", port.as_str()),
            IpAddr::V6(_) => {
                let open = text::concat2("[", ip.as_str());
                if self.scope == 0 {
                    text::concat3(open.as_str(), "]:", port.as_str())
                } else {
                    let scope = text::decimal_text(self.scope as u128);
                    let zoned = text::concat3(open.as_str(), "%", scope.as_str());
                    text::concat3(zoned.as_str(), "]:", port.as_str())
                }
            },
        }
    }
}

/// The number that a text of digits spells, when it is no larger than `max`.
pub open spec fn number_of(s: Seq<char>, max: nat) -> Option<nat> {
    if text::is_digits(s) && text::digits_value(s) <= max {
        Some(text::digits_value(s))
    } else {
        None
    }
}

/// An address, a zone and a port put together.
pub open spec fn socket_of(
    ip: Option<IpAddr>,
    scope: Option<nat>,
    port: Option<nat>,
    six: bool,
) -> Option<SocketAddr> {
    if ip is Some && scope is Some && port is Some && (ip->0 is V6) == six {
        Some(SocketAddr { ip: ip->0, port: port->0 as u16, scope: scope->0 as u32 })
    } else {
        None
    }
}

/// An IPv6 address and its zone, as they stand between the brackets.
pub open spec fn zoned(s: Seq<char>) -> (Option<IpAddr>, Option<nat>) {
    let parts = text::split(s, '%');
    if parts.len() == 1 {
        (ip_of(parts[0]), Some(0))
    } else if parts.len() == 2 {
        (ip_of(parts[0]), number_of(parts[1], u32::MAX as nat))
    } else {
        (None, None)
    }
}

/// The socket address that a text spells: `1.2.3.4:80`, `[::1]:80` or
/// `[fe80::1%3]:80`.
pub open spec fn socket_addr_of(s: Seq<char>) -> Option<SocketAddr> {
    if s.len() > 0 && s[0] == '[' {
        let parts = text::split(s, ']');
        if parts.len() == 2 && parts[0].len() > 0 && parts[1].len() > 0 && parts[1][0] == ':' {
            let (ip, scope) = zoned(parts[0].skip(1));
            socket_of(ip, scope, number_of(parts[1].skip(1), u16::MAX as nat), true)
        } else {
            None
        }
    } else {
        let parts = text::split(s, ':');
        if parts.len() == 2 {
            socket_of(ip_of(parts[0]), Some(0), number_of(parts[1], u16::MAX as nat), false)
        } else {
            None
        }
    }
}

fn parse_number(s: &str, max: u64) -> (r: Option<u64>)
    ensures
        match r {
            Some(n) => number_of(s@, max as nat) == Some(n as nat),
            None => number_of(s@, max as nat) is None,
        },
{
    let chars = text::chars_of(s);
    text::parse_digits(&chars, max)
}

/// `s` without its first character.
fn rest_of(s: &str) -> (r: String)
    requires
        s@.len() > 0,
    ensures
        r@ == s@.skip(1),
{
    let chars = text::chars_of(s);
    text::substring(&chars, 1, chars.len())
}

fn first_char(s: &str) -> (r: Option<char>)
    ensures
        match r {
            Some(c) => s@.len() > 0 && s@[0] == c,
            None => s@.len() == 0,
        },
{
    let chars = text::chars_of(s);
    if chars.len() == 0 {
        None
    } else {
        Some(chars[0])
    }
}

fn parse_zoned(s: &str) -> (r: Option<(IpAddr, u32)>)
    ensures
        match r {
            Some((ip, scope)) => zoned(s@) == (Some(ip), Some(scope as nat)),
            None => zoned(s@).0 is None || zoned(s@).1 is None,
        },
{
    let parts = text::split_text(s, '%');
    let ghost all = text::split(s@, '%');
    assert(all == text::texts(parts@));
    if parts.len() == 1 {
        match parse_ip(parts[0].as_str()) {
            Some(ip) => Some((ip, 0)),
            None => None,
        }
    } else if parts.len() == 2 {
        match (parse_ip(parts[0].as_str()), parse_number(parts[1].as_str(), u32::MAX as u64)) {
            (Some(ip), Some(scope)) => Some((ip, scope as u32)),
            _ => None,
        }
    } else {
        None
    }
}

/// Reads an address and a port.
pub fn parse_socket_addr(s: &str) -> (r: Option<SocketAddr>)
    ensures
        r == socket_addr_of(s@),
{
    if first_char(s) == Some('[') {
        let parts = text::split_text(s, ']');
        let ghost all = text::split(s@, ']');
        assert(all == text::texts(parts@));
        if parts.len() != 2 {
            return None;
        }
        if first_char(parts[0].as_str()).is_none() {
            return None;
        }
        if first_char(parts[1].as_str()) != Some(':') {
            return None;
        }
        let inside = rest_of(parts[0].as_str());
        let port_text = rest_of(parts[1].as_str());
        match (parse_zoned(inside.as_str()), parse_number(port_text.as_str(), u16::MAX as u64)) {
            (Some((ip, scope)), Some(port)) => match ip {
                IpAddr::V6(_) => Some(SocketAddr { ip, port: port as u16, scope }),
                IpAddr::V4(_) => None,
            },
            _ => None,
        }
    } else {
        let parts = text::split_text(s, ':');
        let ghost all = text::split(s@, ':');
        assert(all == text::texts(parts@));
        if parts.len() != 2 {
            return None;
        }
        match (parse_ip(parts[0].as_str()), parse_number(parts[1].as_str(), u16::MAX as u64)) {
            (Some(ip), Some(port)) => match ip {
                IpAddr::V4(_) => Some(SocketAddr { ip, port: port as u16, scope: 0 }),
                IpAddr::V6(_) => None,
            },
            _ => None,
        }
    }
}

/// A range holds the addresses of its family in one stretch: as many as the bits behind
/// the prefix can spell, beginning at a multiple of that many, and the address that the
/// range is written with is among them.
pub proof fn a_range_is_one_stretch(range: IpCidr, ip: IpAddr)
    requires
        range.well_formed(),
    ensures
        range.holds(range.first),
        (range.first is V4) != (ip is V4) ==> !range.holds(ip),
        match (range.first, ip) {
            (IpAddr::V4(a), IpAddr::V4(b)) => {
                let size = two_to((32 - range.len) as nat) as int;
                range.holds(ip) <==> a - a as int % size <= b < a - a as int % size + size
            },
            (IpAddr::V6(a), IpAddr::V6(b)) => {
                let size = two_to((128 - range.len) as nat) as int;
                range.holds(ip) <==> a - a as int % size <= b < a - a as int % size + size
            },
            _ => true,
        },
        range.len == 0 && (range.first is V4) == (ip is V4) ==> range.holds(ip),
        range.first is V4 && range.len == 32 ==> (range.holds(ip) <==> ip == range.first),
        range.first is V6 && range.len == 128 ==> (range.holds(ip) <==> ip == range.first),
{
    vstd::arithmetic::power2::lemma2_to64();
    vstd::arithmetic::power2::lemma2_to64_rest();
    vstd::arithmetic::power2::lemma_pow2_adds(64, 64);
    assert(two_to(0) == 1);
    assert(two_to(32) == 0x1_0000_0000);
    assert(two_to(64) == 0x1_0000_0000_0000_0000);
    assert(0x1_0000_0000_0000_0000 * 0x1_0000_0000_0000_0000
        == 0x1_0000_0000_0000_0000_0000_0000_0000_0000) by (nonlinear_arith);
    match (range.first, ip) {
        (IpAddr::V4(a), IpAddr::V4(b)) => {
            let bits = (32 - range.len) as nat;
            vstd::arithmetic::power2::lemma_pow2_pos(bits);
            lemma_same_stretch(a as int, b as int, two_to(bits) as int);
            if range.len == 0 {
                vstd::arithmetic::div_mod::lemma_basic_div(a as int, two_to(32) as int);
                vstd::arithmetic::div_mod::lemma_basic_div(b as int, two_to(32) as int);
            }
        },
        (IpAddr::V6(a), IpAddr::V6(b)) => {
            let bits = (128 - range.len) as nat;
            vstd::arithmetic::power2::lemma_pow2_pos(bits);
            lemma_same_stretch(a as int, b as int, two_to(bits) as int);
            if range.len == 0 {
                vstd::arithmetic::div_mod::lemma_basic_div(a as int, two_to(128) as int);
                vstd::arithmetic::div_mod::lemma_basic_div(b as int, two_to(128) as int);
            }
        },
        _ => {},
    }
}

proof fn lemma_same_stretch(a: int, b: int, size: int)
    requires
        size > 0,
    ensures
        a / size == b / size <==> a - a % size <= b < a - a % size + size,
{
    vstd::arithmetic::div_mod::lemma_fundamental_div_mod(a, size);
    vstd::arithmetic::div_mod::lemma_fundamental_div_mod(b, size);
    if a / size != b / size {
        let p = a / size;
        let q = b / size;
        assert(q > p ==> size * q >= size * p + size) by (nonlinear_arith)
            requires
                size > 0,
        ;
        assert(q < p ==> size * q + size <= size * p) by (nonlinear_arith)
            requires
                size > 0,
        ;
    }
}

/// An address with a port behind it is read as that address and that port: an IPv4 address
/// as it is, and an IPv6 address in brackets, with its zone behind a `%` where it has one.
pub proof fn an_address_and_a_port_are_read(written: Seq<char>, port: u16, zone: u32)
    requires
        ip_of(written) is Some,
    ensures
        ip_of(written)->0 is V4 && !written.contains(':') && (written.len() == 0 || written[0]
            != '[') ==> socket_addr_of(written + seq![':'] + text::decimal(port as nat)) == Some(
            SocketAddr { ip: ip_of(written)->0, port, scope: 0 },
        ),
        ip_of(written)->0 is V6 && !written.contains('%') && !written.contains(']')
            ==> socket_addr_of(
            seq!['['] + written + seq![']'] + (seq![':'] + text::decimal(port as nat)),
        ) == Some(SocketAddr { ip: ip_of(written)->0, port, scope: 0 }),
        ip_of(written)->0 is V6 && !written.contains('%') && !written.contains(']')
            ==> socket_addr_of(
            seq!['['] + (written + seq!['%'] + text::decimal(zone as nat)) + seq![']'] + (seq![':']
                + text::decimal(port as nat)),
        ) == Some(SocketAddr { ip: ip_of(written)->0, port, scope: zone }),
{
    let digits = text::decimal(port as nat);
    let number = text::decimal(zone as nat);
    text::a_number_reads_back(port as nat);
    text::a_number_reads_back(zone as nat);
    lemma_digits_only(digits);
    lemma_digits_only(number);
    if ip_of(written)->0 is V4 && !written.contains(':') && (written.len() == 0 || written[0]
        != '[') {
        let s = written + seq![':'] + digits;
        text::a_split_goes_on_behind_a_separator(written, digits, ':');
        text::a_split_goes_on_behind_a_separator(digits, digits, ':');
        assert(text::split(s, ':') == seq![written, digits]);
        assert(s[0] != '[');
    }
    if ip_of(written)->0 is V6 && !written.contains('%') && !written.contains(']') {
        let tail = seq![':'] + digits;
        lemma_brackets(written, tail);
        text::a_split_goes_on_behind_a_separator(written, number, '%');
        text::a_split_goes_on_behind_a_separator(number, number, '%');
        assert(text::split(written, '%') == seq![written]);
        assert(tail.skip(1) == digits);
        let inside = written + seq!['%'] + number;
        assert(!inside.contains(']')) by {
            if inside.contains(']') {
                let k = inside.index_of(']');
                if k < written.len() {
                    assert(written[k] == ']');
                } else if k > written.len() {
                    assert(number[k - written.len() - 1] == ']');
                }
            }
        }
        lemma_brackets(inside, tail);
        assert(text::split(inside, '%') == seq![written, number]);
    }
}

proof fn lemma_digits_only(s: Seq<char>)
    requires
        text::is_digits(s),
    ensures
        !s.contains(':'),
        !s.contains(']'),
        !s.contains('%'),
{
    if s.contains(':') {
        assert(text::is_digit(s[s.index_of(':')]));
    }
    if s.contains(']') {
        assert(text::is_digit(s[s.index_of(']')]));
    }
    if s.contains('%') {
        assert(text::is_digit(s[s.index_of('%')]));
    }
}

proof fn lemma_brackets(inside: Seq<char>, tail: Seq<char>)
    requires
        !inside.contains(']'),
        tail.len() > 0,
        tail[0] == ':',
        !tail.skip(1).contains(']'),
    ensures
        text::split(seq!['['] + inside + seq![']'] + tail, ']') == seq![seq!['['] + inside, tail],
        (seq!['['] + inside).skip(1) == inside,
        (seq!['['] + inside + seq![']'] + tail)[0] == '[',
{
    let open = seq!['['] + inside;
    assert(!open.contains(']')) by {
        if open.contains(']') {
            let k = open.index_of(']');
            assert(inside[k - 1] == ']');
        }
    }
    assert(!tail.contains(']')) by {
        if tail.contains(']') {
            let k = tail.index_of(']');
            assert(tail.skip(1)[k - 1] == ']');
        }
    }
    text::a_split_goes_on_behind_a_separator(open, tail, ']');
    text::a_split_goes_on_behind_a_separator(tail, tail, ']');
    assert(open.skip(1) == inside);
}

} // verus!
