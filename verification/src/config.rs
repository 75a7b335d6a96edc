//! The persisted configuration: which branches a repository shares and how
//! its transport is set up. Reading and writing the configuration file is
//! file work that stays outside the library.

use vstd::prelude::*;
use vstd::string::StringExecFns;

verus! {

/// An address and port pair.
pub struct AddressPort {
    pub addr: String,
    pub port: u16,
}

/// The torrent transport's endpoints: the router to bootstrap from and
/// the address to bind to.
pub struct Torrent {
    pub router: AddressPort,
    pub bind: AddressPort,
}

/// Which transports are configured.
pub struct Transport {
    pub torrent: Option<Torrent>,
}

/// A repository's stored configuration: the branches it shares, one name
/// as its wire bytes, and the transport setup.
pub struct Config {
    pub branches: Vec<Vec<u8>>,
    pub transport: Transport,
}

impl Default for Config {
    /// The configuration a fresh repository starts with: no branches
    /// shared, no transport configured.
    fn default() -> (c: Config)
        ensures
            c.branches@.len() == 0,
            c.transport.torrent is None,
    {
        Config { branches: Vec::new(), transport: Transport { torrent: None } }
    }
}

/// Where a repository's configuration lives: the settings directory and
/// the configuration file inside it.
pub fn get_config_path_dir_and_file(dir: &str) -> (r: (String, String))
    ensures
        r.0@ == dir@ + "/.gtr"@,
        r.1@ == dir@ + "/.gtr/config.toml"@,
{
    let config_dir = dir.to_owned().concat("/.gtr");
    let settings_path = dir.to_owned().concat("/.gtr/config.toml");
    (config_dir, settings_path)
}

} // verus!
