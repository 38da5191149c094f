//! Addresses of nodes.

use vstd::prelude::*;

verus! {

/// An IP address of version 4: its four octets.
#[derive(Clone, Copy, Debug, PartialEq, Eq, Hash, Structural)]
pub struct Ipv4Addr(pub u8, pub u8, pub u8, pub u8);

/// An IP address of version 6: its eight segments.
#[derive(Clone, Copy, Debug, PartialEq, Eq, Hash, Structural)]
pub struct Ipv6Addr(
    pub u16,
    pub u16,
    pub u16,
    pub u16,
    pub u16,
    pub u16,
    pub u16,
    pub u16,
);

/// An IP address.
#[derive(Clone, Copy, Debug, PartialEq, Eq, Hash, Structural)]
pub enum IpAddr {
    V4(Ipv4Addr),
    V6(Ipv6Addr),
}

/// An IP address and a port; of version 6, also the flow information and the scope.
#[derive(Clone, Copy, Debug, PartialEq, Eq, Hash, Structural)]
pub enum SocketAddr {
    V4 { ip: Ipv4Addr, port: u16 },
    V6 { ip: Ipv6Addr, port: u16, flow_info: u32, scope_id: u32 },
}

impl SocketAddr {
    /// The address of this IP address and port, without flow information and scope.
    pub open spec fn of(ip: IpAddr, port: u16) -> SocketAddr {
        match ip {
            IpAddr::V4(ip) => SocketAddr::V4 { ip, port },
            IpAddr::V6(ip) => SocketAddr::V6 { ip, port, flow_info: 0, scope_id: 0 },
        }
    }

    /// The IP address.
    pub open spec fn spec_ip(&self) -> IpAddr {
        match *self {
            SocketAddr::V4 { ip, .. } => IpAddr::V4(ip),
            SocketAddr::V6 { ip, .. } => IpAddr::V6(ip),
        }
    }

    /// The port.
    pub open spec fn spec_port(&self) -> u16 {
        match *self {
            SocketAddr::V4 { port, .. } => port,
            SocketAddr::V6 { port, .. } => port,
        }
    }

    /// Is it nothing but an IP address and a port?
    pub open spec fn spec_is_plain(&self) -> bool {
        *self == SocketAddr::of(self.spec_ip(), self.spec_port())
    }

    /// The address of this IP address and port, without flow information and scope.
    pub fn new(ip: IpAddr, port: u16) -> (addr: Self)
        ensures
            addr == SocketAddr::of(ip, port),
    {
        match ip {
            IpAddr::V4(ip) => SocketAddr::V4 { ip, port },
            IpAddr::V6(ip) => SocketAddr::V6 { ip, port, flow_info: 0, scope_id: 0 },
        }
    }

    /// The IP address.
    #[verifier::when_used_as_spec(spec_ip)]
    pub fn ip(&self) -> (ip: IpAddr)
        ensures
            ip == self.spec_ip(),
    {
        match *self {
            SocketAddr::V4 { ip, .. } => IpAddr::V4(ip),
            SocketAddr::V6 { ip, .. } => IpAddr::V6(ip),
        }
    }

    /// The port.
    #[verifier::when_used_as_spec(spec_port)]
    pub fn port(&self) -> (port: u16)
        ensures
            port == self.spec_port(),
    {
        match *self {
            SocketAddr::V4 { port, .. } => port,
            SocketAddr::V6 { port, .. } => port,
        }
    }

    /// Is it nothing but an IP address and a port?
    #[verifier::when_used_as_spec(spec_is_plain)]
    pub fn is_plain(&self) -> (plain: bool)
        ensures
            plain == self.spec_is_plain(),
    {
        match *self {
            SocketAddr::V4 { .. } => true,
            SocketAddr::V6 { flow_info, scope_id, .. } => flow_info == 0 && scope_id == 0,
        }
    }

    /// `port` on the loopback interface.
    pub fn localhost(port: u16) -> (addr: Self)
        ensures
            addr == (SocketAddr::V4 { ip: Ipv4Addr(127, 0, 0, 1), port }),
    {
        SocketAddr::V4 { ip: Ipv4Addr(127, 0, 0, 1), port }
    }
}

/// Computes the gRPC address from the gossip listen address for tests: the next port of the same
/// IP address, without flow information and scope. The last port has no next one.
pub fn grpc_addr_from_listen_addr_for_test(listen_addr: SocketAddr) -> (grpc_addr: SocketAddr)
    requires
        listen_addr.port() < u16::MAX,
    ensures
        grpc_addr == SocketAddr::of(listen_addr.ip(), (listen_addr.port() + 1) as u16),
        match listen_addr {
            SocketAddr::V4 { ip, port } => grpc_addr == (SocketAddr::V4 {
                ip,
                port: (port + 1) as u16,
            }),
            SocketAddr::V6 { ip, port, .. } => grpc_addr == (SocketAddr::V6 {
                ip,
                port: (port + 1) as u16,
                flow_info: 0,
                scope_id: 0,
            }),
        },
{
    let grpc_port: u16 = listen_addr.port() + 1u16;
    SocketAddr::new(listen_addr.ip(), grpc_port)
}

/// The parts of an address are those that it is made of. Of version 4 there are no others; of
/// version 6 it is nothing but its IP address and port where both other parts are 0.
pub proof fn parts_of_an_address(v4: Ipv4Addr, v6: Ipv6Addr, port: u16, flow: u32, scope: u32)
    ensures
        SocketAddr::of(IpAddr::V4(v4), port) == (SocketAddr::V4 { ip: v4, port }),
        SocketAddr::of(IpAddr::V6(v6), port) == (SocketAddr::V6 {
            ip: v6,
            port,
            flow_info: 0,
            scope_id: 0,
        }),
        ({
            let addr = SocketAddr::V4 { ip: v4, port };
            addr.ip() == IpAddr::V4(v4) && addr.port() == port && addr.is_plain()
        }),
        ({
            let addr = SocketAddr::V6 { ip: v6, port, flow_info: flow, scope_id: scope };
            &&& addr.ip() == IpAddr::V6(v6)
            &&& addr.port() == port
            &&& addr.is_plain() <==> flow == 0 && scope == 0
        }),
{
}

} // verus!
