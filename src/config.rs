use vstd::prelude::*;

use crate::event::{decimal, push_decimal, push_str, string_of};

verus! {

/// Where a server listens, and the credentials it asks for, if any.
#[derive(Clone, Debug, PartialEq, Eq)]
pub struct ServerConfig {
    pub host: String,
    pub port: u16,
    pub username: Option<String>,
    pub password: Option<String>,
}

/// The text `host:port` that a socket address is parsed from.
pub open spec fn address_of(host: Seq<char>, port: u16) -> Seq<char> {
    host + seq![':'] + decimal(port as nat)
}

impl ServerConfig {
    /// The address to bind or connect to.
    pub fn address(&self) -> (r: String)
        ensures
            r@ == address_of(self.host@, self.port),
    {
        let mut out: Vec<char> = Vec::new();
        push_str(&mut out, &self.host);
        out.push(':');
        push_decimal(&mut out, self.port as u64);
        assert(out@ =~= address_of(self.host@, self.port));
        string_of(out)
    }
}

impl Default for ServerConfig {
    fn default() -> (r: ServerConfig)
        ensures
            r.host@ == seq!['1', '2', '7', '.', '0', '.', '0', '.', '1'],
            r.port == 38580,
            r.username is None,
            r.password is None,
    {
        proof {
            reveal_strlit("127.0.0.1");
        }
        ServerConfig {
            host: String::from_str("127.0.0.1"),
            port: 38580,
            username: None,
            password: None,
        }
    }
}

} // verus!
