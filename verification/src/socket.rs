//! Sockets: endpoints identified by a domain, a type and a protocol.

use vstd::prelude::*;

verus! {

use crate::errno::Errno;

/// A socket, described by its domain, type and protocol.
#[derive(Debug)]
pub struct Socket {
    /// The socket's domain.
    domain: i32,
    /// The socket's type.
    type_: i32,
    /// The socket's protocol.
    protocol: i32,
}

impl Socket {
    /// Creates a new instance with the given domain, type and protocol.
    pub fn new(domain: i32, type_: i32, protocol: i32) -> (r: Socket)
        ensures
            r.spec_domain() == domain,
            r.spec_type() == type_,
            r.spec_protocol() == protocol,
    {
        Socket { domain, type_, protocol }
    }

    /// The socket's domain, as seen by contracts.
    pub closed spec fn spec_domain(self) -> i32 {
        self.domain
    }

    /// The socket's type, as seen by contracts.
    pub closed spec fn spec_type(self) -> i32 {
        self.type_
    }

    /// The socket's protocol, as seen by contracts.
    pub closed spec fn spec_protocol(self) -> i32 {
        self.protocol
    }

    /// Returns the socket's domain.
    pub fn get_domain(&self) -> (r: i32)
        ensures
            r == self.spec_domain(),
    {
        self.domain
    }

    /// Returns the socket's type.
    pub fn get_type(&self) -> (r: i32)
        ensures
            r == self.spec_type(),
    {
        self.type_
    }

    /// Returns the socket's protocol.
    pub fn get_protocol(&self) -> (r: i32)
        ensures
            r == self.spec_protocol(),
    {
        self.protocol
    }

    /// Builds the default socket, with every parameter zero.
    pub fn failable_default() -> (r: Result<Socket, Errno>)
        ensures
            r matches Ok(s) && s.spec_domain() == 0 && s.spec_type() == 0 && s.spec_protocol()
                == 0,
    {
        Ok(Socket::new(0, 0, 0))
    }
}

} // verus!
