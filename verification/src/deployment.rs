//! Where the relay runs, and the address it listens on there.

use vstd::prelude::*;
use vstd::string::StringExecFns;
use vstd::utf8::encode_utf8_decode_utf8;
use crate::command::bytes_eq;

verus! {

/// The name by which a production deployment is asked for.
pub const PRODUCTION: &'static str = "production";

/// The host that a relay in production listens on.
pub const PRODUCTION_HOST: &'static str = "fly-global-services";

/// The host that a relay under development listens on.
pub const DEVELOPMENT_HOST: &'static str = "0.0.0.0";

/// Where the relay runs.
#[derive(Clone, Copy, Debug, PartialEq, Eq, Structural)]
pub enum Environment {
    Development,
    Production,
}

/// The environment that `name` asks for: production where it says so,
/// letter for letter; development for every other name.
pub open spec fn environment_of(name: Seq<char>) -> Environment {
    if name == PRODUCTION@ {
        Environment::Production
    } else {
        Environment::Development
    }
}

impl Environment {
    /// The host that a relay listens on in this environment.
    pub open spec fn host(self) -> Seq<char> {
        match self {
            Environment::Production => PRODUCTION_HOST@,
            Environment::Development => DEVELOPMENT_HOST@,
        }
    }

    /// The environment that `s` asks for.
    pub fn from_str(s: &str) -> (environment: Environment)
        ensures
            environment == environment_of(s@),
    {
        proof {
            encode_utf8_decode_utf8(s@);
            encode_utf8_decode_utf8(PRODUCTION@);
        }
        if bytes_eq(s.as_bytes(), PRODUCTION.as_bytes()) {
            Environment::Production
        } else {
            Environment::Development
        }
    }

    /// The address that a relay listens on in this environment, given the
    /// port: the host, a colon, and the port.
    pub fn get_addr(&self, port: &str) -> (addr: String)
        ensures
            addr@ == self.host() + ":"@ + port@,
    {
        let mut addr = match self {
            Environment::Production => String::from_str(PRODUCTION_HOST),
            Environment::Development => String::from_str(DEVELOPMENT_HOST),
        };
        addr.append(":");
        addr.append(port);
        addr
    }
}

} // verus!
