//! Networking for the guest: the listening socket comes from the manager.
//!
//! The manager creates the guest's listening socket and passes it over the
//! control channel; when the guest binds its `listen_port` it gets that
//! socket, and a forked child replaces it with the socket passed for the
//! child. A bind on any other port gets a socket that reports the address it
//! was given but can neither listen nor connect. The descriptor of every
//! connection the guest holds is known, so that a freeze can end the
//! template's network presence exactly.

use crate::text;
use std::collections::HashSet;
use vstd::prelude::*;

verus! {

/// The address of a socket.
#[derive(Debug, PartialEq, Eq)]
pub struct Address {
    /// The IP address as text.
    pub ip: String,
    pub port: u16,
    /// Whether it is an IPv6 address, which stands in brackets before a port.
    pub v6: bool,
}

/// What an address is.
pub struct AddressView {
    pub ip: Seq<char>,
    pub port: u16,
    pub v6: bool,
}

impl View for Address {
    type V = AddressView;

    open spec fn view(&self) -> AddressView {
        AddressView { ip: self.ip@, port: self.port, v6: self.v6 }
    }
}

impl Clone for Address {
    fn clone(&self) -> (r: Self)
        ensures
            r == *self,
    {
        Address { ip: self.ip.clone(), port: self.port, v6: self.v6 }
    }
}

/// An address as text: the IP address, a colon and the port.
pub open spec fn address_text(address: AddressView) -> Seq<char> {
    if address.v6 {
        "["@ + address.ip + "]:"@ + text::decimal(address.port as nat)
    } else {
        address.ip + ":"@ + text::decimal(address.port as nat)
    }
}

impl Address {
    /// The address as text.
    pub fn text(&self) -> (r: String)
        ensures
            r@ == address_text(self@),
    {
        if self.v6 {
            let mut out = "[".to_owned();
            out.append(self.ip.as_str());
            out.append("]:");
            text::push_decimal(&mut out, self.port as u64);
            out
        } else {
            let mut out = self.ip.clone();
            out.append(":");
            text::push_decimal(&mut out, self.port as u64);
            out
        }
    }
}

/// The guest's sockets, by descriptor.
#[derive(Debug)]
pub struct HostNetworking {
    pub listen_port: u16,
    /// The passed socket, until the guest binds.
    pub passed: Option<i32>,
    /// The guest's listener once it has bound.
    pub adopted: Option<i32>,
    /// The connections the guest holds.
    pub connections: HashSet<i32>,
}

/// What is wrong with a request on the guest's sockets.
#[derive(Clone, Copy, Debug, PartialEq, Eq, Structural)]
pub enum NetError {
    AlreadyBound,
    NotBound,
    NothingPassed,
    /// A socket could not be shut down.
    Shutdown(i32),
}

/// What is wrong, in words.
pub open spec fn net_error_text(error: NetError) -> Seq<char> {
    match error {
        NetError::AlreadyBound => "the guest has already bound its listening socket"@,
        NetError::NotBound => "the guest has not bound its listening socket"@,
        NetError::NothingPassed => "no listening socket was passed"@,
        NetError::Shutdown(fd) => "failed to shut down socket "@ + text::signed_decimal(fd as int),
    }
}

impl NetError {
    /// What is wrong, in words.
    pub fn text(self) -> (r: String)
        ensures
            r@ == net_error_text(self),
    {
        match self {
            NetError::AlreadyBound => "the guest has already bound its listening socket".to_owned(),
            NetError::NotBound => "the guest has not bound its listening socket".to_owned(),
            NetError::NothingPassed => "no listening socket was passed".to_owned(),
            NetError::Shutdown(fd) => {
                let mut out = "failed to shut down socket ".to_owned();
                text::push_signed(&mut out, fd);
                out
            },
        }
    }
}

/// What the guest gets when it binds a port.
#[derive(Clone, Copy, Debug, PartialEq, Eq, Structural)]
pub enum Bind {
    /// A socket that answers for its address and refuses everything else.
    Unserved,
    /// The passed socket.
    Passed(i32),
    /// The address is in use: the passed socket is gone, or never came.
    InUse,
}

/// Which way a socket is shut down.
#[derive(Clone, Copy, Debug, PartialEq, Eq, Structural)]
pub enum Shutdown {
    Read,
    Both,
}

/// How a shutdown went.
#[derive(Clone, Copy, Debug, PartialEq, Eq, Structural)]
pub enum ShutdownResult {
    Done,
    /// The socket was not connected: its peer is gone already.
    NotConnected,
    Failed,
}

/// Connections that are shut down both ways.
pub open spec fn both_ways(fds: Seq<i32>) -> Seq<(i32, Shutdown)> {
    Seq::new(fds.len(), |i: int| (fds[i], Shutdown::Both))
}

impl HostNetworking {
    /// Networking for a guest that listens on `listen_port`.
    pub fn new(listen_port: u16) -> (r: Self)
        ensures
            r.listen_port == listen_port,
            r.passed is None,
            r.adopted is None,
            r.connections@ == Set::<i32>::empty(),
    {
        HostNetworking { listen_port, passed: None, adopted: None, connections: HashSet::new() }
    }

    /// Stores the socket the guest gets when it binds `listen_port`. Refused
    /// once the guest has bound.
    pub fn set_listener(&mut self, listener: i32) -> (r: Result<(), NetError>)
        ensures
            r == if old(self).adopted is Some {
                Err::<(), NetError>(NetError::AlreadyBound)
            } else {
                Ok(())
            },
            *final(self) == if old(self).adopted is Some {
                *old(self)
            } else {
                HostNetworking { passed: Some(listener), ..*old(self) }
            },
    {
        if self.adopted.is_some() {
            return Err(NetError::AlreadyBound);
        }
        self.passed = Some(listener);
        Ok(())
    }

    /// In a forked child: makes the guest's listener use `listener` instead
    /// of the socket inherited from the parent. Refused before the guest has
    /// bound.
    pub fn replace_listener(&mut self, listener: i32) -> (r: Result<(), NetError>)
        ensures
            r == if old(self).adopted is Some {
                Ok::<(), NetError>(())
            } else {
                Err(NetError::NotBound)
            },
            *final(self) == if old(self).adopted is Some {
                HostNetworking { adopted: Some(listener), ..*old(self) }
            } else {
                *old(self)
            },
    {
        if self.adopted.is_none() {
            return Err(NetError::NotBound);
        }
        self.adopted = Some(listener);
        Ok(())
    }

    /// What the guest gets when it binds `port`.
    pub open spec fn bound(self, port: u16) -> (HostNetworking, Bind) {
        if port != self.listen_port {
            (self, Bind::Unserved)
        } else {
            match self.passed {
                Some(listener) => (
                    HostNetworking { passed: None, ..self },
                    Bind::Passed(listener),
                ),
                None => (self, Bind::InUse),
            }
        }
    }

    /// The guest binds `port`: it gets the passed socket for the port it
    /// listens on, once, and nothing real for any other. The socket is gone
    /// then, and the guest's only once it is adopted.
    pub fn bind(&mut self, port: u16) -> (r: Bind)
        ensures
            (*final(self), r) == old(self).bound(port),
    {
        if port != self.listen_port {
            return Bind::Unserved;
        }
        match self.passed {
            Some(listener) => {
                self.passed = None;
                Bind::Passed(listener)
            },
            None => Bind::InUse,
        }
    }

    /// The guest's networking once it listens through a socket.
    pub open spec fn adopting(self, listener: i32) -> HostNetworking {
        HostNetworking { adopted: Some(listener), ..self }
    }

    /// The socket a bind got has become the guest's listener. One that could
    /// not become a listener is never adopted.
    pub fn adopt(&mut self, listener: i32)
        ensures
            *final(self) == old(self).adopting(listener),
    {
        self.adopted = Some(listener);
    }

    /// The guest holds a connection.
    pub fn track(&mut self, fd: i32)
        ensures
            final(self).connections@ == old(self).connections@.insert(fd),
            *final(self) == (HostNetworking { connections: final(self).connections, ..*old(self) }),
    {
        broadcast use vstd::std_specs::hash::group_hash_axioms;

        self.connections.insert(fd);
    }

    /// The guest has dropped a connection.
    pub fn untrack(&mut self, fd: i32)
        ensures
            final(self).connections@ == old(self).connections@.remove(fd),
            *final(self) == (HostNetworking { connections: final(self).connections, ..*old(self) }),
    {
        broadcast use vstd::std_specs::hash::group_hash_axioms;

        self.connections.remove(&fd);
    }

    /// The listener's part in the end of the guest's network presence: it
    /// stops accepting.
    pub open spec fn listener_shutdown(self) -> Seq<(i32, Shutdown)> {
        match self.adopted {
            Some(fd) => seq![(fd, Shutdown::Read)],
            None => Seq::empty(),
        }
    }

    /// Whether these end the guest's network presence: the listener stops
    /// accepting, and every connection the guest holds, in whatever order, is
    /// shut down both ways once.
    pub open spec fn is_ended_by(self, shutdowns: Seq<(i32, Shutdown)>) -> bool {
        exists|fds: Seq<i32>|
            {
                &&& fds.no_duplicates()
                &&& fds.to_set() == self.connections@
                &&& shutdowns == self.listener_shutdown() + #[trigger] both_ways(fds)
            }
    }

    /// What ends the guest's network presence, for a freeze.
    pub fn shut_down_sockets(&self) -> (r: Vec<(i32, Shutdown)>)
        ensures
            self.is_ended_by(r@),
    {
        broadcast use vstd::std_specs::hash::group_hash_axioms;

        let mut r: Vec<(i32, Shutdown)> = Vec::new();
        if let Some(fd) = self.adopted {
            r.push((fd, Shutdown::Read));
        }
        proof {
            assert(r@ =~= self.listener_shutdown() + both_ways(Seq::empty()));
        }
        let ghost mut fds: Seq<i32> = Seq::empty();
        let ghost all = vstd::std_specs::iter::IteratorSpec::remaining(&self.connections.iter());
        for fd in connections: self.connections.iter()
            invariant
                connections.seq() == all,
                fds == all.unref().take(connections.index()),
                r@ == self.listener_shutdown() + both_ways(fds),
        {
            r.push((*fd, Shutdown::Both));
            proof {
                fds = fds.push(*fd);
                assert(r@ =~= self.listener_shutdown() + both_ways(fds));
                assert(fds =~= all.unref().take(connections.index() + 1));
            }
        }
        proof {
            assert(fds =~= all.unref());
            assert forall|i: int, j: int| 0 <= i < fds.len() && 0 <= j < fds.len() && i
                != j implies fds[i] != fds[j] by {
                assert(all[i] != all[j]);
            }
        }
        r
    }

    /// The socket the guest listens (or will listen) on.
    pub fn endpoint(&self) -> (r: Result<i32, NetError>)
        ensures
            r == match (self.adopted, self.passed) {
                (Some(fd), _) => Ok::<i32, NetError>(fd),
                (None, Some(fd)) => Ok(fd),
                (None, None) => Err(NetError::NothingPassed),
            },
    {
        match (self.adopted, self.passed) {
            (Some(fd), _) => Ok(fd),
            (None, Some(fd)) => Ok(fd),
            (None, None) => Err(NetError::NothingPassed),
        }
    }
}

/// Whether a socket counts as shut down.
pub fn check_shutdown(fd: i32, result: ShutdownResult) -> (r: Result<(), NetError>)
    ensures
        r == if result == ShutdownResult::Failed {
            Err::<(), NetError>(NetError::Shutdown(fd))
        } else {
            Ok(())
        },
{
    if result == ShutdownResult::Failed {
        Err(NetError::Shutdown(fd))
    } else {
        Ok(())
    }
}

/// The passed socket between the guest's bind and its listen.
#[derive(Debug)]
pub struct PassedBoundSocket {
    pub listener: Option<i32>,
}

impl PassedBoundSocket {
    /// The guest listens: it gets the socket, once.
    pub fn listen(&mut self) -> (r: Option<i32>)
        ensures
            r == old(self).listener,
            final(self).listener is None,
    {
        let listener = self.listener;
        self.listener = None;
        listener
    }
}

/// A time to live as the socket takes it; `None` where it is out of range.
pub fn socket_ttl(ttl: u32) -> (r: Option<u8>)
    ensures
        r == if ttl <= 255 {
            Some(ttl as u8)
        } else {
            None
        },
{
    if ttl <= 255 {
        Some(ttl as u8)
    } else {
        None
    }
}

/// The time to live of a socket that serves nothing.
pub const UNSERVED_TTL: u32 = 64;

/// The passed socket is given out at most once: after a bind that got it,
/// every bind of the same port is refused, whether or not the guest adopted
/// the socket.
pub proof fn law_the_passed_socket_is_given_once(net: HostNetworking, port: u16, again: u16)
    requires
        net.bound(port).1 is Passed,
    ensures
        net.passed matches Some(listener) && net.bound(port).1 == Bind::Passed(listener),
        ({
            let refused = if again == net.listen_port {
                Bind::InUse
            } else {
                Bind::Unserved
            };
            let (after, _) = net.bound(port);
            let adopted = after.adopting(net.passed->0);
            &&& after.bound(again) == (after, refused)
            &&& adopted.bound(again) == (adopted, refused)
        }),
{
}

/// A bind on any port but the guest's own changes nothing and gets no real
/// socket.
pub proof fn law_other_ports_are_not_served(net: HostNetworking, port: u16)
    requires
        port != net.listen_port,
    ensures
        net.bound(port) == (net, Bind::Unserved),
{
}

/// An address is written with its port behind a colon, and an IPv6 address in
/// brackets before it: ports tell addresses apart.
pub proof fn law_an_address_is_written_with_its_port(a: AddressView, b: AddressView)
    ensures
        a.v6 ==> address_text(a) == seq!['['] + a.ip + seq![']', ':'] + text::decimal(a.port as nat),
        !a.v6 ==> address_text(a) == a.ip + seq![':'] + text::decimal(a.port as nat),
        a.ip == b.ip && a.v6 == b.v6 && address_text(a) == address_text(b) ==> a.port == b.port,
{
    reveal_strlit("[");
    reveal_strlit("]:");
    reveal_strlit(":");
    let (p, q) = (text::decimal(a.port as nat), text::decimal(b.port as nat));
    assert("["@ =~= seq!['[']);
    assert("]:"@ =~= seq![']', ':']);
    assert(":"@ =~= seq![':']);
    if a.ip == b.ip && a.v6 == b.v6 && address_text(a) == address_text(b) {
        let n = address_text(a).len() - p.len();
        assert(address_text(a).len() - q.len() == n);
        assert(address_text(a).skip(n) =~= p);
        assert(address_text(b).skip(n) =~= q);
        text::law_a_number_reads_back(a.port as nat, 65535);
        text::law_a_number_reads_back(b.port as nat, 65535);
    }
}

/// The guest gets the passed socket by binding the port it is to listen on, and
/// nothing else changes by it. Without a socket the port is in use.
pub proof fn law_binding_the_port_gives_the_passed_socket(net: HostNetworking)
    ensures
        ({
            let (after, bind) = net.bound(net.listen_port);
            &&& net.passed matches Some(listener) ==> bind == Bind::Passed(listener)
                && after.passed is None
            &&& net.passed is None ==> bind == Bind::InUse && after == net
            &&& after.listen_port == net.listen_port
            &&& after.adopted == net.adopted
            &&& after.connections == net.connections
        }),
{
}

/// What the guest listens on is kept as its listener, and nothing else changes
/// by it.
pub proof fn law_a_listener_is_adopted(net: HostNetworking, listener: i32)
    ensures
        net.adopting(listener).adopted == Some(listener),
        net.adopting(listener).passed == net.passed,
        net.adopting(listener).listen_port == net.listen_port,
        net.adopting(listener).connections == net.connections,
{
}

/// A guest's sockets are ended by shutting down its listener for reading, where
/// it has one, and each of its connections both ways, and nothing else.
pub proof fn law_every_socket_is_shut_down(
    net: HostNetworking,
    shutdowns: Seq<(i32, Shutdown)>,
    fd: i32,
)
    requires
        net.is_ended_by(shutdowns),
    ensures
        net.connections@.contains(fd) ==> shutdowns.contains((fd, Shutdown::Both)),
        shutdowns.contains((fd, Shutdown::Both)) ==> net.connections@.contains(fd),
        net.adopted == Some(fd) ==> shutdowns.len() > 0 && shutdowns[0] == (fd, Shutdown::Read),
        shutdowns.contains((fd, Shutdown::Read)) ==> net.adopted == Some(fd),
        forall|i: int, j: int|
            0 <= i < j < shutdowns.len() ==> #[trigger] shutdowns[i] != #[trigger] shutdowns[j],
{
    let fds = choose|fds: Seq<i32>|
        {
            &&& fds.no_duplicates()
            &&& fds.to_set() == net.connections@
            &&& shutdowns == net.listener_shutdown() + #[trigger] both_ways(fds)
        };
    let n = net.listener_shutdown().len();
    if net.connections@.contains(fd) {
        assert(fds.to_set().contains(fd));
        let i = choose|i: int| 0 <= i < fds.len() && fds[i] == fd;
        assert(shutdowns[n + i] == (fd, Shutdown::Both));
    }
    if shutdowns.contains((fd, Shutdown::Both)) {
        let i = choose|i: int| 0 <= i < shutdowns.len() && shutdowns[i] == (fd, Shutdown::Both);
        assert(i >= n);
        assert(fds[i - n] == fd);
        assert(fds.to_set().contains(fd));
    }
    assert forall|i: int, j: int| 0 <= i < j < shutdowns.len() implies #[trigger] shutdowns[i]
        != #[trigger] shutdowns[j] by {
        if i >= n {
            assert(fds[i - n] != fds[j - n]);
        }
    }
}

/// An address is seen with its IP address, its port and its kind.
pub proof fn law_an_address_is_seen_as_it_is(address: Address)
    ensures
        address@.ip == address.ip@,
        address@.port == address.port,
        address@.v6 == address.v6,
{
}

} // verus!
