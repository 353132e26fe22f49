use vstd::prelude::*;

verus! {

/// Server settings: the port to listen on, the number of keys above which the
/// store evicts one key before inserting, and the name of the append-only file.
pub struct Config {
    pub port: u16,
    pub max_key_limit: usize,
    pub aof_file_name: String,
}

/// The default port.
pub open spec fn default_port() -> u16 {
    7379
}

/// The default key limit.
pub open spec fn default_max_key_limit() -> usize {
    100
}

/// The default name of the append-only file.
pub open spec fn default_aof_file_name() -> Seq<char> {
    seq!['d', 'e', 'f', 'a', 'u', 'l', 't', '.', 'a', 'o', 'f']
}

impl Config {
    /// The default settings.
    pub fn new() -> (c: Self)
        ensures
            c.port == default_port(),
            c.max_key_limit == default_max_key_limit(),
            c.aof_file_name@ == default_aof_file_name(),
    {
        let name = String::from_str("default.aof");
        proof {
            reveal_strlit("default.aof");
        }
        Config { port: 7379, max_key_limit: 100, aof_file_name: name }
    }
}

/// The settings in force.
pub fn config() -> (c: Config)
    ensures
        c.port == default_port(),
        c.max_key_limit == default_max_key_limit(),
        c.aof_file_name@ == default_aof_file_name(),
{
    Config::new()
}

} // verus!
