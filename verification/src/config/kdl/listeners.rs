//! The `listeners` block: what a service can be reached on.
use crate::config::internal::{CertKeyPaths, ListenerConfig, ListenerKind, TlsConfig};
use crate::config::kdl::args;
use crate::config::kdl::args::{Args, Bad, Fault};
use crate::config::kdl::connectors;
use crate::config::kdl::document::{Document, Entry, Node, Span};
use crate::net;
use crate::text;
use crate::tls;
use crate::tls::store;
use crate::tls::store::ServedName;
use vstd::prelude::*;

verus! {

/// What is wrong with one piece of a list of domains, if anything.
pub open spec fn domain_piece_fault(list: Seq<char>, piece: Seq<char>, span: Span) -> Option<
    Fault,
> {
    let entry = text::trimmed(piece);
    if entry.len() == 0 {
        Some(("'"@ + list + "' has an empty entry - check for a stray comma"@, span))
    } else {
        args::when(store::served(entry) is None, tls::bad_name_words(entry), span)
    }
}

/// What is wrong with the first faulty piece of a list of domains.
pub open spec fn domain_pieces_fault(list: Seq<char>, pieces: Seq<Seq<char>>, span: Span) -> Option<
    Fault,
>
    decreases pieces.len(),
{
    if pieces.len() == 0 {
        None
    } else {
        args::or(
            domain_pieces_fault(list, pieces.drop_last(), span),
            domain_piece_fault(list, pieces.last(), span),
        )
    }
}

/// What is wrong with a comma separated list of domains, if anything.
pub open spec fn domain_list_fault(list: Seq<char>, span: Span) -> Option<Fault> {
    domain_pieces_fault(list, text::split(list, ','), span)
}

/// The domains that a comma separated list names.
pub open spec fn domain_list(list: Seq<char>) -> Seq<Seq<char>> {
    text::split(list, ',').map_values(|p: Seq<char>| text::trimmed(p))
}

proof fn lemma_domain_fault_stays(
    list: Seq<char>,
    pieces: Seq<Seq<char>>,
    n: int,
    span: Span,
)
    requires
        0 <= n <= pieces.len(),
        domain_pieces_fault(list, pieces.take(n), span) is Some,
    ensures
        domain_pieces_fault(list, pieces, span) == domain_pieces_fault(
            list,
            pieces.take(n),
            span,
        ),
    decreases pieces.len() - n,
{
    if n < pieces.len() {
        assert(pieces.take(n + 1).drop_last() == pieces.take(n));
        lemma_domain_fault_stays(list, pieces, n + 1, span);
    } else {
        assert(pieces.take(n) == pieces);
    }
}

/// Reads a comma separated list of domain names.
pub fn parse_domain_list(list: &str, span: Span) -> (r: Result<Vec<String>, Bad>)
    ensures
        args::told(r, domain_list_fault(list@, span)),
        r matches Ok(names) ==> text::texts(names@) == domain_list(list@) && names@.len() > 0,
{
    let pieces = text::split_text(list, ',');
    let ghost all = text::split(list@, ',');
    assert(all == text::texts(pieces@));
    proof {
        text::lemma_split_nonempty(list@, ',');
    }
    let mut out: Vec<String> = Vec::new();
    let mut i: usize = 0;
    assert(text::texts(out@) == all.take(0).map_values(|p: Seq<char>| text::trimmed(p)));
    while i < pieces.len()
        invariant
            i <= pieces@.len(),
            all == text::texts(pieces@),
            all == text::split(list@, ','),
            domain_pieces_fault(list@, all.take(i as int), span) is None,
            out@.len() == i,
            text::texts(out@) == all.take(i as int).map_values(
                |p: Seq<char>| text::trimmed(p),
            ),
        decreases pieces@.len() - i,
    {
        let ghost next = all.take(i + 1);
        assert(next.drop_last() == all.take(i as int));
        assert(next.last() == pieces@[i as int]@);
        let entry = text::trim(pieces[i].as_str());
        if entry.as_str().is_empty() {
            proof {
                lemma_domain_fault_stays(list@, all, i + 1, span);
            }
            return Err(
                Bad::quoting("'", list, "' has an empty entry - check for a stray comma", span),
            );
        }
        // Validated now, so a typo is reported against the line that has it
        // rather than as a failed order days later.
        match ServedName::parse(entry.as_str()) {
            Ok(_) => {},
            Err(e) => {
                proof {
                    lemma_domain_fault_stays(list@, all, i + 1, span);
                }
                return Err(Bad::docspan(e.to_text(), span));
            },
        }
        let ghost before = out@;
        let ghost name = entry@;
        out.push(entry);
        assert(text::texts(out@) == text::texts(before).push(name));
        assert(next == all.take(i as int).push(all[i as int]));
        assert(next.map_values(|p: Seq<char>| text::trimmed(p)) == all.take(i as int).map_values(
            |p: Seq<char>| text::trimmed(p),
        ).push(name));
        i = i + 1;
    }
    assert(all.take(all.len() as int) == all);
    Ok(out)
}

/// Does the listener get a certificate from anywhere?
pub open spec fn has_tls(e: Seq<Entry>) -> bool {
    args::str_arg(e, "cert-path"@) is Some || args::str_arg(e, "acme-domains"@) is Some
}

/// What is wrong with a listener on an address, if anything.
pub open spec fn tcp_fault(e: Seq<Entry>, span: Span) -> Option<Fault> {
    args::or(
        args::str_fault(e, "cert-path"@),
        args::or(
            args::str_fault(e, "key-path"@),
            args::or(
                args::bool_fault(e, "offer-h2"@),
                args::or(
                    args::str_fault(e, "acme-domains"@),
                    args::or(
                        args::when(
                            args::str_arg(e, "cert-path"@) is Some != args::str_arg(
                                e,
                                "key-path"@,
                            ) is Some,
                            "'cert-path' and 'key-path' must either BOTH be present, or NEITHER should be present"@,
                            span,
                        ),
                        args::or(
                            match args::str_arg(e, "acme-domains"@) {
                                Some(list) => domain_list_fault(list, span),
                                None => None,
                            },
                            args::when(
                                !has_tls(e) && args::bool_arg(e, "offer-h2"@) is Some,
                                "'offer-h2' requires TLS, specify 'cert-path' and 'key-path', or 'acme-domains'"@,
                                span,
                            ),
                        ),
                    ),
                ),
            ),
        ),
    )
}

/// What is wrong with a listener, if anything. Anything that isn't a socket
/// address is a path to a unix domain socket, and every text is a valid path.
pub open spec fn listener_fault(node: Node) -> Option<Fault> {
    args::or(
        args::unnamed(node.entries@),
        if net::socket_addr_of(node.name@) is Some {
            tcp_fault(node.entries@, node.span)
        } else {
            None
        },
    )
}

/// Are these the certificates that the arguments of a listener ask for?
pub open spec fn tls_config_is(e: Seq<Entry>, t: TlsConfig) -> bool {
    &&& match t.cert {
        Some(paths) => args::str_arg(e, "cert-path"@) == Some(paths.cert_path@)
            && args::str_arg(e, "key-path"@) == Some(paths.key_path@),
        None => args::str_arg(e, "cert-path"@) is None,
    }
    &&& text::texts(t.acme_domains@) == (match args::str_arg(e, "acme-domains"@) {
        Some(list) => domain_list(list),
        None => Seq::empty(),
    })
}

/// Is `l` the listener that a line asks for?
pub open spec fn listener_is(node: Node, l: ListenerConfig) -> bool {
    let e = node.entries@;
    match l.source {
        ListenerKind::Tcp { addr, tls, offer_h2 } => {
            &&& net::socket_addr_of(node.name@) is Some
            &&& addr@ == node.name@
            &&& match tls {
                Some(t) => has_tls(e) && tls_config_is(e, t) && offer_h2 == connectors::given(
                    args::bool_arg(e, "offer-h2"@),
                    true,
                ),
                None => !has_tls(e) && !offer_h2,
            }
        },
        ListenerKind::Uds(path) => net::socket_addr_of(node.name@) is None && path@ == node.name@,
    }
}

fn extract_tcp(node: &Node, a: &Args) -> (r: Result<ListenerConfig, Bad>)
    requires
        a.entries@ == node.entries@,
        a.span == node.span,
        net::socket_addr_of(node.name@) is Some,
    ensures
        args::told(r, tcp_fault(node.entries@, node.span)),
        r matches Ok(l) ==> listener_is(*node, l),
{
    let cert_path = match a.take_str("cert-path") {
        Ok(v) => v,
        Err(b) => {
            return Err(b);
        },
    };
    let key_path = match a.take_str("key-path") {
        Ok(v) => v,
        Err(b) => {
            return Err(b);
        },
    };
    let offer_h2 = match a.take_bool("offer-h2") {
        Ok(v) => v,
        Err(b) => {
            return Err(b);
        },
    };
    let list = match a.take_str("acme-domains") {
        Ok(v) => v,
        Err(b) => {
            return Err(b);
        },
    };
    // A certificate can come from disk, from ACME, or both - in which case the
    // one on disk is the fallback for names ACME doesn't cover.
    let cert = match (cert_path, key_path) {
        (None, None) => None,
        (Some(c), Some(k)) => Some(
            CertKeyPaths { cert_path: c.to_owned(), key_path: k.to_owned() },
        ),
        _ => {
            return Err(
                Bad::plain(
                    "'cert-path' and 'key-path' must either BOTH be present, or NEITHER should be present",
                    node.span,
                ),
            );
        },
    };
    let acme_domains = match list {
        Some(l) => match parse_domain_list(l, node.span) {
            Ok(v) => v,
            Err(b) => {
                return Err(b);
            },
        },
        None => Vec::new(),
    };
    // Without a certificate from either source, this is a plaintext listener.
    if cert.is_none() && acme_domains.len() == 0 {
        if offer_h2.is_some() {
            return Err(
                Bad::plain(
                    "'offer-h2' requires TLS, specify 'cert-path' and 'key-path', or 'acme-domains'",
                    node.span,
                ),
            );
        }
        return Ok(
            ListenerConfig {
                source: ListenerKind::Tcp { addr: node.name.clone(), tls: None, offer_h2: false },
            },
        );
    }
    assert(list is None ==> text::texts(acme_domains@) == Seq::<Seq<char>>::empty());
    Ok(
        ListenerConfig {
            source: ListenerKind::Tcp {
                addr: node.name.clone(),
                tls: Some(TlsConfig { cert, acme_domains }),
                // HTTP2 is offered unless told otherwise.
                offer_h2: match offer_h2 {
                    Some(b) => b,
                    None => true,
                },
            },
        },
    )
}

/// One line of a `listeners` block.
pub fn extract_listener(node: &Node) -> (r: Result<ListenerConfig, Bad>)
    ensures
        args::told(r, listener_fault(*node)),
        r matches Ok(l) ==> listener_is(*node, l),
{
    let a = match Args::named(&node.entries, node.span) {
        Ok(a) => a,
        Err(b) => {
            return Err(b);
        },
    };
    if net::parse_socket_addr(node.name.as_str()).is_some() {
        extract_tcp(node, &a)
    } else {
        Ok(ListenerConfig { source: ListenerKind::Uds(node.name.clone()) })
    }
}

/// The check on each line of a `listeners` block.
pub open spec fn listener_check() -> spec_fn(Node) -> Option<Fault> {
    |n: Node| listener_fault(n)
}

/// What is wrong with the listeners of a service, if anything.
pub open spec fn listeners_fault(service: Document) -> Option<Fault> {
    let block = args::child(service, "listeners"@)->0;
    args::or(
        args::required_fault(service, "listeners"@),
        args::or(
            args::when(block.nodes@.len() == 0, "nonzero listeners required"@, block.span),
            args::first_fault(block.nodes@, listener_check()),
        ),
    )
}

/// Are these the listeners of a service?
pub open spec fn listeners_are(service: Document, list: Seq<ListenerConfig>) -> bool {
    let nodes = args::child(service, "listeners"@)->0.nodes@;
    &&& list.len() == nodes.len()
    &&& forall|i: int| 0 <= i < list.len() ==> listener_is(nodes[i], #[trigger] list[i])
}

/// The listeners of a service, of which there is at least one.
pub fn extract_listeners(service: &Document) -> (r: Result<Vec<ListenerConfig>, Bad>)
    ensures
        args::told(r, listeners_fault(*service)),
        r matches Ok(list) ==> listeners_are(*service, list@),
{
    let block = match args::required_child_doc(service, "listeners") {
        Ok(d) => d,
        Err(b) => {
            return Err(b);
        },
    };
    let nodes = block.nodes.as_slice();
    if nodes.len() == 0 {
        return Err(Bad::plain("nonzero listeners required", block.span));
    }
    let mut out: Vec<ListenerConfig> = Vec::new();
    let mut i: usize = 0;
    while i < nodes.len()
        invariant
            i <= nodes@.len(),
            nodes@ == block.nodes@,
            nodes@.len() > 0,
            args::required_fault(*service, "listeners"@) is None,
            args::child(*service, "listeners"@) == Some(*block),
            args::first_fault(nodes@.take(i as int), listener_check()) is None,
            out@.len() == i,
            forall|k: int| 0 <= k < i ==> listener_is(nodes@[k], #[trigger] out@[k]),
        decreases nodes@.len() - i,
    {
        let ghost next = nodes@.take(i + 1);
        assert(next.drop_last() == nodes@.take(i as int));
        assert(next.last() == nodes@[i as int]);
        match extract_listener(&nodes[i]) {
            Ok(l) => {
                out.push(l);
            },
            Err(b) => {
                proof {
                    args::lemma_fault_stays(nodes@, i + 1, listener_check());
                }
                return Err(b);
            },
        }
        i = i + 1;
    }
    assert(nodes@.take(nodes@.len() as int) == nodes@);
    Ok(out)
}

/// Every domain of a list is read, wherever in the list it stands: two lists with a comma
/// between them are one, and a list without a comma is one domain, without the white space
/// around it.
pub proof fn every_domain_of_a_list_is_read(a: Seq<char>, b: Seq<char>)
    ensures
        domain_list(a + seq![','] + b) == domain_list(a) + domain_list(b),
        !a.contains(',') ==> domain_list(a) == seq![text::trimmed(a)],
{
    text::a_split_goes_on_behind_a_separator(a, b, ',');
}

/// A list of domains is in order if and only if each of them is: there is no empty entry,
/// and every entry is a name that a certificate can be for.
pub proof fn every_domain_of_a_list_is_checked(list: Seq<char>, span: Span)
    ensures
        domain_list_fault(list, span) is None <==> forall|i: int|
            0 <= i < domain_list(list).len() ==> (#[trigger] domain_list(list)[i]).len() > 0
                && store::served(domain_list(list)[i]) is Some,
{
    let pieces = text::split(list, ',');
    lemma_pieces_checked(list, pieces, span);
    let read = domain_list(list);
    assert(forall|i: int|
        0 <= i < pieces.len() ==> #[trigger] read[i] == text::trimmed(pieces[i]));
    if domain_list_fault(list, span) is None {
        assert forall|i: int| 0 <= i < read.len() implies (#[trigger] read[i]).len() > 0
            && store::served(read[i]) is Some by {
            assert(domain_piece_fault(list, pieces[i], span) is None);
        }
    } else {
        let i = choose|i: int|
            0 <= i < pieces.len() && domain_piece_fault(list, #[trigger] pieces[i], span) is Some;
        assert(read[i] == text::trimmed(pieces[i]));
    }
}

proof fn lemma_pieces_checked(list: Seq<char>, pieces: Seq<Seq<char>>, span: Span)
    ensures
        domain_pieces_fault(list, pieces, span) is None <==> forall|i: int|
            0 <= i < pieces.len() ==> domain_piece_fault(list, #[trigger] pieces[i], span) is None,
    decreases pieces.len(),
{
    if pieces.len() > 0 {
        let front = pieces.drop_last();
        let last = pieces.len() - 1;
        lemma_pieces_checked(list, front, span);
        assert(forall|i: int| 0 <= i < front.len() ==> #[trigger] front[i] == pieces[i]);
        assert(pieces[last] == pieces.last());
        if domain_pieces_fault(list, pieces, span) is None {
            assert forall|i: int| 0 <= i < pieces.len() implies domain_piece_fault(
                list,
                #[trigger] pieces[i],
                span,
            ) is None by {
                if i < last {
                    assert(domain_piece_fault(list, front[i], span) is None);
                }
            }
        }
    }
}

/// Each line of a `listeners` block is one listener, in the order they stand in: on the
/// address that the line names, or on a socket in the file system where it names none. It
/// has TLS where it is given a certificate or domains to manage, with every domain of the
/// list, and then offers HTTP/2 unless that is switched off.
pub proof fn every_line_is_a_listener(service: Document, list: Seq<ListenerConfig>, i: int, d: int)
    requires
        listeners_are(service, list),
        0 <= i < args::child(service, "listeners"@)->0.nodes@.len(),
    ensures
        list.len() == args::child(service, "listeners"@)->0.nodes@.len(),
        ({
            let node = args::child(service, "listeners"@)->0.nodes@[i];
            let cert = args::str_arg(node.entries@, "cert-path"@);
            let key = args::str_arg(node.entries@, "key-path"@);
            let domains = args::str_arg(node.entries@, "acme-domains"@);
            let h2 = args::bool_arg(node.entries@, "offer-h2"@);
            match list[i].source {
                ListenerKind::Uds(path) => path@ == node.name@ && net::socket_addr_of(
                    node.name@,
                ) is None,
                ListenerKind::Tcp { addr, tls, offer_h2 } => {
                    &&& addr@ == node.name@
                    &&& net::socket_addr_of(node.name@) is Some
                    &&& tls is Some <==> cert is Some || domains is Some
                    &&& offer_h2 <==> tls is Some && h2 != Some(false)
                    &&& tls matches Some(t) ==> {
                        &&& t.cert is Some <==> cert is Some
                        &&& t.cert matches Some(c) ==> Some(c.cert_path@) == cert && Some(
                            c.key_path@,
                        ) == key
                        &&& domains is None ==> t.acme_domains@.len() == 0
                        &&& domains matches Some(all) ==> t.acme_domains@.len() == text::split(
                            all,
                            ',',
                        ).len() && (0 <= d < t.acme_domains@.len() ==> t.acme_domains@[d]@
                            == text::trimmed(text::split(all, ',')[d]))
                    }
                },
            }
        }),
{
    let node = args::child(service, "listeners"@)->0.nodes@[i];
    assert(listener_is(node, list[i]));
    match list[i].source {
        ListenerKind::Tcp { tls: Some(t), .. } => {
            let texts = text::texts(t.acme_domains@);
            assert(texts.len() == t.acme_domains@.len());
            if args::str_arg(node.entries@, "acme-domains"@) is Some && 0 <= d < texts.len() {
                let all = args::str_arg(node.entries@, "acme-domains"@)->0;
                assert(texts[d] == t.acme_domains@[d]@);
                assert(domain_list(all)[d] == text::trimmed(text::split(all, ',')[d]));
            }
        },
        _ => {},
    }
}

/// A listener on an address is without fault if and only if it can be set up: a certificate
/// comes with its key, every domain to manage is one, and HTTP/2 is only spoken of where
/// there is TLS.
pub proof fn a_listener_that_can_be_set_up(e: Seq<Entry>, span: Span)
    ensures
        tcp_fault(e, span) is None <==> {
            let cert = args::str_arg(e, "cert-path"@);
            let domains = args::str_arg(e, "acme-domains"@);
            &&& args::str_fault(e, "cert-path"@) is None
            &&& args::str_fault(e, "key-path"@) is None
            &&& args::bool_fault(e, "offer-h2"@) is None
            &&& args::str_fault(e, "acme-domains"@) is None
            &&& cert is Some <==> args::str_arg(e, "key-path"@) is Some
            &&& domains matches Some(list) ==> domain_list_fault(list, span) is None
            &&& args::bool_arg(e, "offer-h2"@) is Some ==> cert is Some || domains is Some
        },
{
}

/// A service has at least one listener, and every one of them is checked.
pub proof fn every_listener_is_checked(service: Document, i: int)
    requires
        listeners_fault(service) is None,
    ensures
        args::child(service, "listeners"@) is Some,
        args::child(service, "listeners"@)->0.nodes@.len() > 0,
        0 <= i < args::child(service, "listeners"@)->0.nodes@.len() ==> listener_fault(
            args::child(service, "listeners"@)->0.nodes@[i],
        ) is None,
{
    let nodes = args::child(service, "listeners"@)->0.nodes@;
    args::lemma_faultless(nodes, listener_check());
    if 0 <= i < nodes.len() {
        assert(nodes.contains(nodes[i]));
        assert(listener_check()(nodes[i]) is None);
    }
}

} // verus!
