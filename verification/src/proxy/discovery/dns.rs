//! Discovery from a hostname's A and AAAA records: one name that resolves to
//! every instance of a service, on a port the operator already knows.
use crate::config::internal::{Duration, PeerTemplate};
use crate::net::{IpAddr, SocketAddr};
use crate::proxy::discovery::resolver::{self, Addresses, Moment, ResolveError};
use crate::proxy::discovery::{self, backend_for, Backend};
use crate::text;
use vstd::prelude::*;

verus! {

/// Resolves one hostname into a set of servers on a fixed port.
#[derive(Debug)]
pub struct DnsJob {
    pub host: String,
    pub port: u16,
    pub template: PeerTemplate,
    pub description: String,
}

/// A server at each of the addresses, in order. Each is served under the name
/// that was asked for.
pub open spec fn servers_at(
    addrs: Seq<IpAddr>,
    port: u16,
    template: PeerTemplate,
    host: Seq<char>,
) -> Seq<discovery::Found> {
    addrs.map_values(
        |ip: IpAddr|
            discovery::Found {
                addr: SocketAddr { ip, port, scope: 0 },
                weight: 1,
                sni: template.sni_for(host),
            },
    )
}

impl DnsJob {
    pub fn new(host: &str, port: u16, template: PeerTemplate) -> (r: Self)
        ensures
            r.host@ == host@,
            r.port == port,
            r.template == template,
            r.description@ == "dns "@ + host@ + ":"@ + text::decimal(port as nat),
    {
        let number = text::decimal_text(port as u128);
        let name = text::concat3("dns ", host, ":");
        DnsJob {
            host: host.to_owned(),
            port,
            template,
            description: text::concat2(name.as_str(), number.as_str()),
        }
    }

    /// How this job is named in logs.
    pub fn describe(&self) -> (r: &str)
        ensures
            r@ == self.description@,
    {
        self.description.as_str()
    }

    /// What a lookup of the hostname comes to: a server at each address, and
    /// how long that is good for. No address at all is a failure.
    pub fn resolve(&self, answer: Result<Addresses, ResolveError>, now: Moment) -> (r: Result<
        (Vec<Backend>, Duration),
        ResolveError,
    >)
        ensures
            match answer {
                Err(e) => r == Err::<(Vec<Backend>, Duration), ResolveError>(e),
                Ok(found) => if found.addrs@.len() == 0 {
                    r matches Err(e) && e.0@ == "'"@ + self.host@ + "' resolved to no addresses"@
                } else {
                    r matches Ok((backends, ttl)) && discovery::stands_for(
                        backends@,
                        servers_at(found.addrs@, self.port, self.template, self.host@),
                        self.template,
                    ) && ttl.millis == resolver::until(found.valid_until, now)
                },
            },
    {
        let found = match answer {
            Ok(found) => found,
            Err(e) => return Err(e),
        };
        if found.addrs.len() == 0 {
            let msg = text::concat3("'", self.host.as_str(), "' resolved to no addresses");
            return Err(ResolveError::new(msg));
        }
        let mut backends: Vec<Backend> = Vec::new();
        let ghost servers = servers_at(found.addrs@, self.port, self.template, self.host@);
        let mut i: usize = 0;
        while i < found.addrs.len()
            invariant
                i <= found.addrs@.len(),
                servers == servers_at(found.addrs@, self.port, self.template, self.host@),
                discovery::stands_for(backends@, servers.take(i as int), self.template),
            decreases found.addrs@.len() - i,
        {
            let addr = SocketAddr { ip: found.addrs[i], port: self.port, scope: 0 };
            let peer = self.template.peer(addr, self.host.as_str());
            assert(servers.take(i + 1) == servers.take(i as int).push(servers[i as int]));
            backends.push(backend_for(addr, 1, peer));
            i = i + 1;
        }
        assert(servers.take(servers.len() as int) == servers);
        Ok((backends, resolver::time_until(found.valid_until, now)))
    }
}

/// A name is served at each of its addresses, in their order: all on the port that was
/// configured, with equal shares, and under the name that was asked for.
pub proof fn a_name_is_served_at_each_address(
    addrs: Seq<IpAddr>,
    port: u16,
    template: PeerTemplate,
    host: Seq<char>,
)
    ensures
        ({
            let servers = servers_at(addrs, port, template, host);
            &&& servers.len() == addrs.len()
            &&& forall|k: int|
                0 <= k < addrs.len() ==> {
                    &&& (#[trigger] servers[k]).addr.ip == addrs[k]
                    &&& servers[k].addr.port == port
                    &&& servers[k].addr.scope == 0
                    &&& servers[k].weight == 1
                    &&& servers[k].sni == template.sni_for(host)
                }
        }),
{
}

} // verus!
