use crate::configs::config::Config;
use vstd::prelude::*;

verus! {

/// The HTTP front of the service, with the settings it serves under.
pub struct APIHandler {
    pub conf: Config,
}

impl APIHandler {
    /// A handler with its own copy of the settings.
    pub fn create(conf: &Config) -> (handler: APIHandler)
        ensures
            handler.conf.same(conf),
    {
        APIHandler { conf: conf.clone() }
    }

    /// The address to listen on: host and port with a colon between them.
    pub open spec fn address_of(host: Seq<char>, port: nat) -> Seq<char> {
        host + ":"@ + crate::base::string::decimal(port)
    }

    /// Writes the address to listen on.
    pub fn bind_address(&self) -> (address: String)
        ensures
            address@ == Self::address_of(self.conf.server.host@, self.conf.server.port as nat),
    {
        let mut out = self.conf.server.host.clone();
        out.append(":");
        crate::base::string::push_decimal(&mut out, self.conf.server.port);
        out
    }
}

} // verus!
