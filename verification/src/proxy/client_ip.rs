//! Working out which address a request came from.
//!
//! Behind a load balancer the address of the peer is the balancer's. A
//! forwarding header says who the client is, and is believed only from a peer
//! that was configured as a trusted proxy.
use crate::config::internal::ClientIpConfig;
use crate::net::{self, IpAddr, IpCidr};
use crate::proxy::message::{self, Header};
use crate::text;
use vstd::prelude::*;

verus! {

/// The header that the client address is read from unless told otherwise.
pub fn default_header() -> (r: String)
    ensures
        r@ == "x-forwarded-for"@,
{
    "x-forwarded-for".to_owned()
}

/// The ranges are ranges.
pub open spec fn ranges(blocks: Seq<IpCidr>) -> bool {
    forall|i: int| 0 <= i < blocks.len() ==> (#[trigger] blocks[i]).well_formed()
}

/// Does the address fall into one of the ranges?
pub open spec fn within(addr: IpAddr, blocks: Seq<IpCidr>) -> bool {
    exists|i: int| 0 <= i < blocks.len() && (#[trigger] blocks[i]).holds(addr)
}

/// Does the address fall into one of the ranges?
pub fn is_trusted(addr: &IpAddr, trusted: &[IpCidr]) -> (r: bool)
    requires
        ranges(trusted@),
    ensures
        r == within(*addr, trusted@),
{
    let mut i: usize = 0;
    while i < trusted.len()
        invariant
            i <= trusted@.len(),
            ranges(trusted@),
            forall|k: int| 0 <= k < i ==> !(#[trigger] trusted@[k]).holds(*addr),
        decreases trusted@.len() - i,
    {
        if trusted[i].contains(addr) {
            return true;
        }
        i = i + 1;
    }
    false
}

/// The text between a pair of square brackets.
pub open spec fn unbracketed(s: Seq<char>) -> Option<Seq<char>> {
    if s.len() >= 2 && s[0] == '[' && s.last() == ']' {
        Some(s.subrange(1, s.len() - 1))
    } else {
        None
    }
}

/// The address that one entry of a forwarding header spells: bare, with a port
/// behind it, or in brackets.
pub open spec fn entry_address(s: Seq<char>) -> Option<IpAddr> {
    match net::ip_of(s) {
        Some(ip) => Some(ip),
        None => match net::socket_addr_of(s) {
            Some(addr) => Some(addr.ip),
            None => match unbracketed(s) {
                Some(inner) => net::ip_of(inner),
                None => None,
            },
        },
    }
}

/// Reads one entry of a forwarding header.
pub fn parse_entry(entry: &str) -> (r: Option<IpAddr>)
    ensures
        r == entry_address(entry@),
{
    match net::parse_ip(entry) {
        Some(ip) => return Some(ip),
        None => {},
    }
    match net::parse_socket_addr(entry) {
        Some(addr) => return Some(addr.ip),
        None => {},
    }
    let chars = text::chars_of(entry);
    if chars.len() >= 2 && chars[0] == '[' && chars[chars.len() - 1] == ']' {
        let inner = text::substring(&chars, 1, chars.len() - 1);
        net::parse_ip(inner.as_str())
    } else {
        None
    }
}

/// The addresses among the entries, in order.
pub open spec fn addresses_among(entries: Seq<Seq<char>>) -> Seq<IpAddr>
    decreases entries.len(),
{
    if entries.len() == 0 {
        Seq::empty()
    } else {
        let front = addresses_among(entries.drop_last());
        match entry_address(text::trimmed(entries.last())) {
            Some(ip) => front.push(ip),
            None => front,
        }
    }
}

/// The addresses that the lines of a forwarding header list, oldest first. A
/// header that is spread over several lines is one list, in the order of the
/// lines. `None` when a line is not text.
pub open spec fn chain(lines: Seq<Seq<u8>>) -> Option<Seq<IpAddr>>
    decreases lines.len(),
{
    if lines.len() == 0 {
        Some(Seq::empty())
    } else {
        match (chain(lines.drop_last()), message::value_text(lines.last())) {
            (Some(front), Some(line)) => Some(front + addresses_among(text::split(line, ','))),
            _ => None,
        }
    }
}

/// The last address that is not in one of the ranges.
pub open spec fn last_outside(addresses: Seq<IpAddr>, trusted: Seq<IpCidr>) -> Option<IpAddr>
    decreases addresses.len(),
{
    if addresses.len() == 0 {
        None
    } else if within(addresses.last(), trusted) {
        last_outside(addresses.drop_last(), trusted)
    } else {
        Some(addresses.last())
    }
}

/// The address that a chain of forwarders vouches for: the last one that is not
/// itself a trusted proxy, or the first where all of them are.
pub open spec fn vouched(addresses: Seq<IpAddr>, trusted: Seq<IpCidr>) -> Option<IpAddr> {
    match last_outside(addresses, trusted) {
        Some(ip) => Some(ip),
        None => if addresses.len() > 0 {
            Some(addresses[0])
        } else {
            None
        },
    }
}

/// Walks the chain from the nearest forwarder back to the first address that is
/// not a trusted proxy.
pub fn pick(addresses: &[IpAddr], trusted: &[IpCidr]) -> (r: Option<IpAddr>)
    requires
        ranges(trusted@),
    ensures
        r == vouched(addresses@, trusted@),
{
    let mut i: usize = addresses.len();
    assert(addresses@.take(i as int) == addresses@);
    while i > 0
        invariant
            i <= addresses@.len(),
            ranges(trusted@),
            last_outside(addresses@, trusted@) == last_outside(
                addresses@.take(i as int),
                trusted@,
            ),
        decreases i,
    {
        assert(addresses@.take(i as int).drop_last() == addresses@.take(i - 1));
        assert(addresses@.take(i as int).last() == addresses@[i - 1]);
        if !is_trusted(&addresses[i - 1], trusted) {
            return Some(addresses[i - 1]);
        }
        i = i - 1;
    }
    if addresses.len() > 0 {
        Some(addresses[0])
    } else {
        None
    }
}

/// Adds the addresses that one line of the header lists.
fn read_line(line: &str, out: &mut Vec<IpAddr>)
    ensures
        final(out)@ == old(out)@ + addresses_among(text::split(line@, ',')),
{
    let entries = text::split_text(line, ',');
    let ghost all = text::texts(entries@);
    let ghost before = out@;
    let mut i: usize = 0;
    while i < entries.len()
        invariant
            i <= entries@.len(),
            all == text::texts(entries@),
            out@ == before + addresses_among(all.take(i as int)),
        decreases entries@.len() - i,
    {
        let ghost next = all.take(i + 1);
        assert(next.drop_last() == all.take(i as int));
        assert(next.last() == entries@[i as int]@);
        let entry = text::trim(entries[i].as_str());
        match parse_entry(entry.as_str()) {
            Some(ip) => {
                out.push(ip);
                assert(out@ == before + addresses_among(next));
            },
            None => {},
        }
        i = i + 1;
    }
    assert(all.take(all.len() as int) == all);
}

proof fn lemma_broken_chain(lines: Seq<Seq<u8>>, n: int)
    requires
        0 <= n <= lines.len(),
        chain(lines.take(n)) is None,
    ensures
        chain(lines) is None,
    decreases lines.len() - n,
{
    if n < lines.len() {
        assert(lines.take(n + 1).drop_last() == lines.take(n));
        lemma_broken_chain(lines, n + 1);
    } else {
        assert(lines.take(n) == lines);
    }
}

/// The client that a forwarding header names.
pub open spec fn named_client(
    headers: Seq<(Seq<char>, Seq<u8>)>,
    name: Seq<char>,
    trusted: Seq<IpCidr>,
) -> Option<IpAddr> {
    match chain(message::values_of(headers, name)) {
        Some(addresses) => vouched(addresses, trusted),
        None => None,
    }
}

/// Walks the forwarding header for the furthest address that is believed.
fn from_header(headers: &[Header], config: &ClientIpConfig) -> (r: Option<IpAddr>)
    requires
        ranges(config.trusted_proxies@),
    ensures
        r == named_client(message::pairs(headers@), config.header@, config.trusted_proxies@),
{
    let mut addresses: Vec<IpAddr> = Vec::new();
    let ghost all = message::pairs(headers@);
    let ghost lines = message::values_of(all, config.header@);
    let mut i: usize = 0;
    while i < headers.len()
        invariant
            i <= headers@.len(),
            all == message::pairs(headers@),
            lines == message::values_of(all, config.header@),
            chain(message::values_of(all.take(i as int), config.header@)) == Some(addresses@),
        decreases headers@.len() - i,
    {
        let ghost next = all.take(i + 1);
        assert(next.drop_last() == all.take(i as int));
        assert(next.last() == message::pair(headers@[i as int]));
        if text::same_text(headers[i].name.as_str(), config.header.as_str()) {
            let ghost so_far = message::values_of(next, config.header@);
            assert(so_far.drop_last() == message::values_of(all.take(i as int), config.header@));
            match message::to_text(headers[i].value.as_slice()) {
                Some(line) => {
                    read_line(line.as_str(), &mut addresses);
                },
                None => {
                    proof {
                        lemma_values_grow(all, i + 1, config.header@);
                        lemma_broken_chain(lines, so_far.len() as int);
                    }
                    return None;
                },
            }
        }
        i = i + 1;
    }
    assert(all.take(all.len() as int) == all);
    pick(addresses.as_slice(), config.trusted_proxies.as_slice())
}

proof fn lemma_values_grow(headers: Seq<(Seq<char>, Seq<u8>)>, n: int, name: Seq<char>)
    requires
        0 <= n <= headers.len(),
    ensures
        message::values_of(headers.take(n), name).len() <= message::values_of(headers, name).len(),
        message::values_of(headers, name).take(
            message::values_of(headers.take(n), name).len() as int,
        ) == message::values_of(headers.take(n), name),
    decreases headers.len() - n,
{
    if n < headers.len() {
        lemma_values_grow(headers, n + 1, name);
        let longer = message::values_of(headers.take(n + 1), name);
        let shorter = message::values_of(headers.take(n), name);
        assert(headers.take(n + 1).drop_last() == headers.take(n));
        assert(longer.take(shorter.len() as int) == shorter);
        assert(message::values_of(headers, name).take(shorter.len() as int) == longer.take(
            shorter.len() as int,
        ));
    } else {
        assert(headers.take(n) == headers);
        assert(message::values_of(headers, name).take(
            message::values_of(headers, name).len() as int,
        ) == message::values_of(headers, name));
    }
}

/// The address that a request is attributed to.
pub open spec fn client_of(
    peer: Option<IpAddr>,
    headers: Seq<(Seq<char>, Seq<u8>)>,
    config: Option<ClientIpConfig>,
) -> Option<IpAddr> {
    match (peer, config) {
        (None, _) => None,
        (Some(ip), None) => Some(ip),
        (Some(ip), Some(c)) => if !within(ip, c.trusted_proxies@) {
            Some(ip)
        } else {
            match named_client(headers, c.header@, c.trusted_proxies@) {
                Some(client) => Some(client),
                None => Some(ip),
            }
        },
    }
}

/// A client address configuration whose ranges are ranges.
pub open spec fn config_wf(config: Option<&ClientIpConfig>) -> bool {
    match config {
        Some(c) => ranges(c.trusted_proxies@),
        None => true,
    }
}

/// The address that a request should be attributed to. `peer` is the address of
/// the connection; there is none over a unix domain socket.
pub fn resolve(
    peer: Option<IpAddr>,
    headers: &[Header],
    config: Option<&ClientIpConfig>,
) -> (r: Option<IpAddr>)
    requires
        config_wf(config),
    ensures
        r == client_of(
            peer,
            message::pairs(headers@),
            match config {
                Some(c) => Some(*c),
                None => None,
            },
        ),
{
    let ip = match peer {
        Some(ip) => ip,
        None => return None,
    };
    let config = match config {
        Some(c) => c,
        None => return Some(ip),
    };
    if !is_trusted(&ip, config.trusted_proxies.as_slice()) {
        return Some(ip);
    }
    match from_header(headers, config) {
        Some(client) => Some(client),
        None => Some(ip),
    }
}

/// What a peer that is not trusted says about others changes nothing.
pub proof fn untrusted_peers_are_not_believed(
    peer: IpAddr,
    headers: Seq<(Seq<char>, Seq<u8>)>,
    config: ClientIpConfig,
)
    requires
        !within(peer, config.trusted_proxies@),
    ensures
        client_of(Some(peer), headers, Some(config)) == Some(peer),
{
}

/// Whatever stands before an address that is no trusted proxy has no say in
/// which address is picked.
pub proof fn what_a_client_claims_has_no_say(
    claimed: Seq<IpAddr>,
    vouched_for: Seq<IpAddr>,
    trusted: Seq<IpCidr>,
)
    requires
        exists|i: int|
            0 <= i < vouched_for.len() && !within(#[trigger] vouched_for[i], trusted),
    ensures
        vouched(claimed + vouched_for, trusted) == vouched(vouched_for, trusted),
    decreases vouched_for.len(),
{
    let all = claimed + vouched_for;
    let k = choose|i: int| 0 <= i < vouched_for.len() && !within(vouched_for[i], trusted);
    assert(all.last() == vouched_for.last());
    if within(vouched_for.last(), trusted) {
        assert(vouched_for.drop_last()[k] == vouched_for[k]);
        assert(all.drop_last() == claimed + vouched_for.drop_last());
        what_a_client_claims_has_no_say(claimed, vouched_for.drop_last(), trusted);
        lemma_outside_is_found(vouched_for.drop_last(), trusted, k);
        assert((claimed + vouched_for.drop_last())[claimed.len() + k] == vouched_for[k]);
        lemma_outside_is_found(claimed + vouched_for.drop_last(), trusted, claimed.len() + k);
    }
}

proof fn lemma_outside_is_found(addresses: Seq<IpAddr>, trusted: Seq<IpCidr>, k: int)
    requires
        0 <= k < addresses.len(),
        !within(addresses[k], trusted),
    ensures
        last_outside(addresses, trusted) is Some,
    decreases addresses.len(),
{
    if within(addresses.last(), trusted) {
        assert(addresses.drop_last()[k] == addresses[k]);
        lemma_outside_is_found(addresses.drop_last(), trusted, k);
    }
}

/// An address is in a list of ranges if some range of the list holds it, wherever in the
/// list that one stands.
pub proof fn any_range_will_do(addr: IpAddr, blocks: Seq<IpCidr>, i: int)
    ensures
        0 <= i < blocks.len() && blocks[i].holds(addr) ==> within(addr, blocks),
        (forall|k: int| 0 <= k < blocks.len() ==> !(#[trigger] blocks[k]).holds(addr)) ==> !within(
            addr,
            blocks,
        ),
{
}

/// Lists of ranges add up: an address is in two lists put together if it is in one of
/// them, whichever comes first. A list of one range is that range.
pub proof fn lists_of_ranges_add_up(
    addr: IpAddr,
    one: Seq<IpCidr>,
    other: Seq<IpCidr>,
    single: IpCidr,
)
    ensures
        within(addr, one + other) == (within(addr, one) || within(addr, other)),
        within(addr, one + other) == within(addr, other + one),
        within(addr, seq![single]) == single.holds(addr),
        !within(addr, Seq::empty()),
{
    if within(addr, one) {
        let k = choose|k: int| 0 <= k < one.len() && (#[trigger] one[k]).holds(addr);
        assert((one + other)[k].holds(addr));
        assert((other + one)[other.len() + k].holds(addr));
    }
    if within(addr, other) {
        let k = choose|k: int| 0 <= k < other.len() && (#[trigger] other[k]).holds(addr);
        assert((one + other)[one.len() + k].holds(addr));
        assert((other + one)[k].holds(addr));
    }
    if within(addr, one + other) {
        let k = choose|k: int|
            0 <= k < (one + other).len() && (#[trigger] (one + other)[k]).holds(addr);
        if k < one.len() {
            assert(one[k].holds(addr));
        } else {
            assert(other[k - one.len()].holds(addr));
        }
    }
    if within(addr, other + one) {
        let k = choose|k: int|
            0 <= k < (other + one).len() && (#[trigger] (other + one)[k]).holds(addr);
        if k < other.len() {
            assert(other[k].holds(addr));
        } else {
            assert(one[k - other.len()].holds(addr));
        }
    }
    if single.holds(addr) {
        assert(seq![single][0].holds(addr));
    }
}

/// The addresses of a forwarding header are those of its entries, in order: an entry that
/// spells an address adds it, and any other adds nothing.
pub proof fn entries_are_read_one_by_one(entries: Seq<Seq<char>>)
    ensures
        addresses_among(entries) == entries.filter_map(
            |e: Seq<char>| entry_address(text::trimmed(e)),
        ),
    decreases entries.len(),
{
    if entries.len() > 0 {
        entries_are_read_one_by_one(entries.drop_last());
    }
}

/// A forwarding header that is spread over several lines is the list of its lines put
/// together, in their order. A line that is not text makes it unreadable.
pub proof fn lines_are_one_list(one: Seq<Seq<u8>>, other: Seq<Seq<u8>>)
    ensures
        chain(one + other) == (match (chain(one), chain(other)) {
            (Some(a), Some(b)) => Some(a + b),
            _ => None,
        }),
        one.len() == 1 ==> chain(one) == (match message::value_text(one[0]) {
            Some(line) => Some(
                text::split(line, ',').filter_map(
                    |e: Seq<char>| entry_address(text::trimmed(e)),
                ),
            ),
            None => None,
        }),
        one.len() == 0 ==> chain(one) == Some(Seq::<IpAddr>::empty()),
    decreases other.len(),
{
    if one.len() == 1 {
        assert(one.drop_last() == Seq::<Seq<u8>>::empty());
        assert(chain(one.drop_last()) == Some(Seq::<IpAddr>::empty()));
        match message::value_text(one[0]) {
            Some(line) => {
                entries_are_read_one_by_one(text::split(line, ','));
                assert(chain(one) == Some(
                    Seq::<IpAddr>::empty() + addresses_among(text::split(line, ',')),
                ));
                assert(Seq::<IpAddr>::empty() + addresses_among(text::split(line, ','))
                    == addresses_among(text::split(line, ',')));
            },
            None => {},
        }
    }
    if other.len() > 0 {
        assert((one + other).drop_last() == one + other.drop_last());
        lines_are_one_list(one, other.drop_last());
        match (chain(one), chain(other.drop_last()), message::value_text(other.last())) {
            (Some(a), Some(b), Some(line)) => {
                let c = addresses_among(text::split(line, ','));
                assert((a + b) + c == a + (b + c));
            },
            _ => {},
        }
    } else {
        assert(one + other == one);
        match chain(one) {
            Some(a) => {
                assert(a + Seq::<IpAddr>::empty() == a);
            },
            None => {},
        }
    }
}

/// The address that a chain vouches for is one of its own: the one behind which there are
/// only trusted proxies and which is none itself, or the first where all of them are.
pub proof fn the_nearest_stranger_is_the_client(
    addresses: Seq<IpAddr>,
    trusted: Seq<IpCidr>,
    i: int,
)
    requires
        0 <= i < addresses.len(),
        forall|k: int|
            i < k < addresses.len() ==> exists|b: int|
                0 <= b < trusted.len() && (#[trigger] trusted[b]).holds(#[trigger] addresses[k]),
        i == 0 || forall|b: int|
            0 <= b < trusted.len() ==> !(#[trigger] trusted[b]).holds(addresses[i]),
    ensures
        vouched(addresses, trusted) == Some(addresses[i]),
    decreases addresses.len(),
{
    let last = addresses.len() - 1;
    if i < last {
        assert(within(addresses[last], trusted)) by {
            let b = choose|b: int|
                0 <= b < trusted.len() && (#[trigger] trusted[b]).holds(addresses[last]);
            assert(trusted[b].holds(addresses[last]));
        }
        let front = addresses.drop_last();
        assert forall|k: int| i < k < front.len() implies exists|b: int|
            0 <= b < trusted.len() && (#[trigger] trusted[b]).holds(#[trigger] front[k]) by {
            assert(front[k] == addresses[k]);
        }
        the_nearest_stranger_is_the_client(front, trusted, i);
        assert(last_outside(addresses, trusted) == last_outside(front, trusted));
        assert(front[0] == addresses[0]);
    } else if i == 0 && within(addresses[0], trusted) {
        assert(addresses.drop_last() == Seq::<IpAddr>::empty());
        assert(last_outside(addresses.drop_last(), trusted) is None);
    }
}

/// A client is the peer, unless the peer is one of the trusted proxies and its forwarding
/// header, the lines of that name put together, can be read and lists an address.
pub proof fn a_trusted_peer_names_the_client(
    peer: IpAddr,
    headers: Seq<(Seq<char>, Seq<u8>)>,
    config: ClientIpConfig,
    i: int,
)
    requires
        0 <= i < config.trusted_proxies@.len(),
        config.trusted_proxies@[i].holds(peer),
    ensures
        client_of(Some(peer), headers, Some(config)) == (match chain(
            message::values_of(headers, config.header@),
        ) {
            Some(addresses) => if addresses.len() == 0 {
                Some(peer)
            } else {
                vouched(addresses, config.trusted_proxies@)
            },
            None => Some(peer),
        }),
        client_of(None, headers, Some(config)) is None,
        client_of(Some(peer), headers, None) == Some(peer),
{
    assert(within(peer, config.trusted_proxies@));
}

} // verus!
