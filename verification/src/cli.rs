//! The command-line surface, as bare data: the binary parses arguments into
//! these shapes and hands them to the library's entry points.

use vstd::prelude::*;

verus! {

/// The default serving port.
pub const DEFAULT_PORT: u16 = 3625;

/// The default discovery time budget, in milliseconds.
pub const DEFAULT_INTERVAL_MS: u64 = 2000;

/// Arguments of the serve command: where to bind, under which name to
/// announce (a random one is generated when absent), and the session root
/// directory.
pub struct ServeArgs {
    pub host: String,
    pub name: Option<String>,
    pub port: u16,
    pub dir: String,
}

impl ServeArgs {
    /// The default bind address.
    pub fn default_host() -> (r: String)
        ensures
            r@ == "127.0.0.1"@,
    {
        "127.0.0.1".to_owned()
    }
}

/// Arguments of the discover command: whether to show every address or the
/// best one only, and the discovery time budget in milliseconds.
pub struct DiscoverArgs {
    pub all: bool,
    pub interval: u64,
}

/// The two things the tool does.
pub enum Commands {
    Serve(ServeArgs),
    Discover(DiscoverArgs),
}

/// The parsed command line.
pub struct Cli {
    pub command: Commands,
}

} // verus!
