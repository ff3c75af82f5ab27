//! Answering `http-01` challenges.
//!
//! The certificate authority fetches a well-known path over plain HTTP and
//! expects the key authorization back. Such requests are answered from any
//! listener; a dedicated one sends everything else to HTTPS.
use crate::acme::solver::{Challenge, HTTP01_PREFIX};
use crate::proxy::message::{self, Header, RequestHead, ResponseHead};
use crate::proxy::normalize;
use crate::text;
use crate::text_map::TextMap;
use crate::wire;
use vstd::prelude::*;

verus! {

/// The challenge responses that are served at the moment.
pub struct ChallengeStore {
    /// Token to key authorization. Tokens are unique per authorization, so this
    /// need not be keyed by domain as well.
    tokens: TextMap<String>,
}

impl View for ChallengeStore {
    type V = Map<Seq<char>, String>;

    closed spec fn view(&self) -> Map<Seq<char>, String> {
        self.tokens@
    }
}

impl ChallengeStore {
    /// Every token stands for one response.
    pub closed spec fn wf(&self) -> bool {
        self.tokens.wf()
    }

    /// A store that serves nothing.
    pub fn new() -> (r: Self)
        ensures
            r.wf(),
            r@ == Map::<Seq<char>, String>::empty(),
    {
        ChallengeStore { tokens: TextMap::new() }
    }

    /// Serves `key_authorization` for `token` from now on.
    pub fn insert(&mut self, token: String, key_authorization: String)
        requires
            old(self).wf(),
        ensures
            final(self).wf(),
            final(self)@ == old(self)@.insert(token@, key_authorization),
    {
        self.tokens.insert(token.as_str(), key_authorization);
    }

    /// Serves nothing for `token` from now on.
    pub fn remove(&mut self, token: &str)
        requires
            old(self).wf(),
        ensures
            final(self).wf(),
            final(self)@ == old(self)@.remove(token@),
    {
        self.tokens.remove(token);
    }

    /// The response for `token`, if one is served.
    pub fn get(&self, token: &str) -> (r: Option<String>)
        requires
            self.wf(),
        ensures
            match r {
                Some(v) => self@.contains_key(token@) && v@ == self@[token@]@,
                None => !self@.contains_key(token@),
            },
    {
        match self.tokens.get(token) {
            Some(v) => Some(v.clone()),
            None => None,
        }
    }

    /// Is no challenge being waited on right now?
    pub fn is_idle(&self) -> (r: bool)
        requires
            self.wf(),
        ensures
            r == (self@ == Map::<Seq<char>, String>::empty()),
    {
        self.tokens.is_empty()
    }
}

impl Default for ChallengeStore {
    fn default() -> (r: Self)
        ensures
            r.wf(),
            r@ == Map::<Seq<char>, String>::empty(),
    {
        ChallengeStore::new()
    }
}

/// Publishes `http-01` responses into a [`ChallengeStore`].
pub struct Http01Solver {
    pub store: ChallengeStore,
}

impl Http01Solver {
    pub fn new(store: ChallengeStore) -> (r: Self)
        ensures
            r.store == store,
    {
        Http01Solver { store }
    }

    /// Makes the response retrievable.
    pub fn present(&mut self, challenge: &Challenge)
        requires
            old(self).store.wf(),
        ensures
            final(self).store.wf(),
            final(self).store@.dom() == old(self).store@.dom().insert(challenge.token@),
            final(self).store@[challenge.token@]@ == crate::acme::solver::authorization_text(
                challenge.key_authorization,
            ),
            forall|t: Seq<char>|
                t != challenge.token@ && old(self).store@.contains_key(t)
                    ==> #[trigger] final(self).store@[t] == old(self).store@[t],
    {
        self.store.insert(challenge.token.clone(), challenge.http_body());
    }

    /// Withdraws the response, whether or not it was ever published.
    pub fn cleanup(&mut self, challenge: &Challenge)
        requires
            old(self).store.wf(),
        ensures
            final(self).store.wf(),
            final(self).store@ == old(self).store@.remove(challenge.token@),
    {
        self.store.remove(challenge.token.as_str());
    }
}

/// A response with its body.
#[derive(Debug)]
pub struct Reply {
    pub head: ResponseHead,
    pub body: String,
}

impl Reply {
    /// A `200` that says how long the body is, and that it is nothing but bytes.
    pub open spec fn is_plain(self) -> bool {
        self.head.status == 200 && message::pairs(self.head.headers@) == seq![
            line("content-type"@, "application/octet-stream"@),
            line("content-length"@, text::decimal(text::utf8(self.body@).len())),
        ]
    }
}

/// The response that a request is answered with out of the store: one for a
/// token that is in it.
pub open spec fn answer_of(
    store: Map<Seq<char>, String>,
    method: Seq<char>,
    path: Seq<char>,
) -> Option<Seq<char>> {
    let token = path.skip(HTTP01_PREFIX@.len() as int);
    if method == "GET"@ && text::has_prefix(path, HTTP01_PREFIX@) && store.contains_key(token) {
        Some(store[token]@)
    } else {
        None
    }
}

/// A header in the form of a pair, out of texts.
pub open spec fn line(name: Seq<char>, value: Seq<char>) -> (Seq<char>, Seq<u8>) {
    (name, text::utf8(value))
}

fn header(name: &str, value: &str) -> (r: Header)
    ensures
        message::pair(r) == line(name@, value@),
{
    Header { name: name.to_owned(), value: text::bytes_of(value) }
}

/// Answers the request if it is a challenge that is being served.
///
/// Only tokens that are in the store are claimed. A request under the challenge
/// prefix for some other token is passed through, so an upstream that runs its
/// own ACME client keeps working.
pub fn try_serve(store: &ChallengeStore, head: &RequestHead) -> (r: Option<Reply>)
    requires
        store.wf(),
    ensures
        match r {
            Some(reply) => answer_of(store@, head.method@, head.asked_path()) == Some(reply.body@)
                && reply.is_plain(),
            None => answer_of(store@, head.method@, head.asked_path()) is None,
        },
{
    if store.is_idle() {
        return None;
    }
    if !text::same_text(head.method.as_str(), "GET") {
        return None;
    }
    let path = head.path();
    if !text::starts_with(path, HTTP01_PREFIX) {
        return None;
    }
    let chars = text::chars_of(path);
    let skipped = text::chars_of(HTTP01_PREFIX).len();
    let token = text::substring(&chars, skipped, chars.len());
    assert(token@ == path@.skip(HTTP01_PREFIX@.len() as int));
    match store.get(token.as_str()) {
        Some(body) => {
            let length = text::decimal_text(text::bytes_of(body.as_str()).len() as u128);
            let mut headers: Vec<Header> = Vec::new();
            headers.push(header("content-type", "application/octet-stream"));
            headers.push(header("content-length", length.as_str()));
            assert(message::pairs(headers@) == seq![
                line("content-type"@, "application/octet-stream"@),
                line("content-length"@, text::decimal(text::utf8(body@).len())),
            ]);
            Some(Reply { head: ResponseHead { status: 200, headers }, body })
        },
        None => None,
    }
}

/// The host that a request is for: the one in its URI, or else the one in its
/// `Host` header.
pub open spec fn host_of(head: RequestHead) -> Option<Seq<char>> {
    let named = message::values_of(message::pairs(head.headers@), "host"@);
    match head.uri.authority {
        Some(a) => Some(a@),
        None => if named.len() > 0 {
            message::value_text(named[0])
        } else {
            None
        },
    }
}

/// What a request asks of its host.
pub open spec fn wanted(head: RequestHead) -> Seq<char> {
    match head.uri.target {
        Some(t) => normalize::target_text(t.path@, wire::opt_text(t.query)),
        None => "/"@,
    }
}

fn requested_host(head: &RequestHead) -> (r: Option<String>)
    ensures
        match r {
            Some(h) => host_of(*head) == Some(h@),
            None => host_of(*head) is None,
        },
{
    match &head.uri.authority {
        Some(a) => Some(a.clone()),
        None => {
            let (_, first) = message::find_header(head.headers.as_slice(), "host");
            match first {
                Some(i) => message::to_text(head.headers[i].value.as_slice()),
                None => None,
            }
        },
    }
}

/// Does the response send a request to the same place over HTTPS, or say that it named
/// no host?
pub open spec fn is_redirect(head: RequestHead, r: ResponseHead) -> bool {
    match host_of(head) {
        Some(host) => r.status == 301 && message::pairs(r.headers@) == seq![
            line("location"@, "https://"@ + host + wanted(head)),
            line("content-length"@, "0"@),
        ],
        None => r.status == 400 && message::pairs(r.headers@) == seq![
            line("content-length"@, "0"@),
        ],
    }
}

/// What the dedicated listener says to a request that is no challenge: the same
/// place over HTTPS, or that no host was named.
pub fn redirect(head: &RequestHead) -> (r: ResponseHead)
    ensures
        is_redirect(*head, r),
{
    let mut headers: Vec<Header> = Vec::new();
    match requested_host(head) {
        Some(host) => {
            let path = match &head.uri.target {
                Some(t) => match &t.query {
                    Some(q) => text::concat3(t.path.as_str(), "?", q.as_str()),
                    None => t.path.clone(),
                },
                None => "/".to_owned(),
            };
            let location = text::concat3("https://", host.as_str(), path.as_str());
            headers.push(header("location", location.as_str()));
            headers.push(header("content-length", "0"));
            assert(message::pairs(headers@) == seq![
                line("location"@, "https://"@ + host@ + wanted(*head)),
                line("content-length"@, "0"@),
            ]);
            ResponseHead { status: 301, headers }
        },
        None => {
            headers.push(header("content-length", "0"));
            assert(message::pairs(headers@) == seq![line("content-length"@, "0"@)]);
            ResponseHead { status: 400, headers }
        },
    }
}

/// What answers on the listener that exists only for challenges.
pub struct AcmeChallengeService<'a> {
    pub store: &'a ChallengeStore,
}

impl<'a> AcmeChallengeService<'a> {
    /// Answers every request: a challenge with the response to it, and anything else
    /// by sending it to HTTPS, which is what a server that serves only HTTPS wants of
    /// plain HTTP anyway.
    pub fn request_filter(&self, head: &RequestHead) -> (r: Reply)
        requires
            self.store.wf(),
        ensures
            match answer_of(self.store@, head.method@, head.asked_path()) {
                Some(body) => r.body@ == body && r.is_plain(),
                None => is_redirect(*head, r.head) && r.body@.len() == 0,
            },
    {
        match try_serve(self.store, head) {
            Some(reply) => reply,
            None => Reply { head: redirect(head), body: String::new() },
        }
    }
}

/// A response that was published is served, and one that was withdrawn is not.
/// Other tokens are served as before.
pub proof fn a_token_is_served_until_it_is_withdrawn(
    store: Map<Seq<char>, String>,
    token: Seq<char>,
    authorization: String,
    other: Seq<char>,
)
    requires
        other != token,
    ensures
        ({
            let at = HTTP01_PREFIX@ + token;
            let elsewhere = HTTP01_PREFIX@ + other;
            &&& answer_of(store.insert(token, authorization), "GET"@, at) == Some(authorization@)
            &&& answer_of(store.insert(token, authorization).remove(token), "GET"@, at) is None
            &&& answer_of(store.insert(token, authorization), "GET"@, elsewhere) == answer_of(
                store,
                "GET"@,
                elsewhere,
            )
            &&& answer_of(store.remove(token), "GET"@, elsewhere) == answer_of(
                store,
                "GET"@,
                elsewhere,
            )
        }),
{
    let n = HTTP01_PREFIX@.len() as int;
    assert((HTTP01_PREFIX@ + token).skip(n) == token);
    assert((HTTP01_PREFIX@ + other).skip(n) == other);
    assert((HTTP01_PREFIX@ + token).take(n) == HTTP01_PREFIX@);
    assert((HTTP01_PREFIX@ + other).take(n) == HTTP01_PREFIX@);
}

/// Only a `GET` for a token below the challenge prefix is answered: no other method, no
/// other path, and no token that is not in the store.
pub proof fn nothing_but_a_challenge_is_answered(
    store: Map<Seq<char>, String>,
    method: Seq<char>,
    path: Seq<char>,
)
    ensures
        answer_of(store, method, path) is Some ==> method == "GET"@ && exists|token: Seq<char>|
            store.contains_key(token) && path == #[trigger] (HTTP01_PREFIX@ + token) && answer_of(
                store,
                method,
                path,
            ) == Some(store[token]@),
{
    if answer_of(store, method, path) is Some {
        let n = HTTP01_PREFIX@.len() as int;
        let token = path.skip(n);
        assert(path == path.take(n) + token);
        assert(path == HTTP01_PREFIX@ + token);
    }
}

/// A request is sent to the same place over HTTPS: to its own host, path and query. One
/// that names no host is told so.
pub proof fn a_request_is_sent_to_the_same_place(head: RequestHead, r: ResponseHead)
    requires
        is_redirect(head, r),
    ensures
        match host_of(head) {
            Some(host) => r.status == 301 && r.headers@.len() > 0 && r.headers@[0].name@
                == "location"@ && r.headers@[0].value@ == text::utf8(
                "https://"@ + host + (match head.uri.target {
                    Some(t) => match t.query {
                        Some(q) => t.path@ + "?"@ + q@,
                        None => t.path@,
                    },
                    None => "/"@,
                }),
            ),
            None => r.status == 400,
        },
        head.uri.authority matches Some(a) ==> host_of(head) == Some(a@),
{
    if host_of(head) is Some {
        let pairs = message::pairs(r.headers@);
        assert(pairs.len() == r.headers@.len());
        assert(pairs[0] == message::pair(r.headers@[0]));
    }
}

} // verus!
