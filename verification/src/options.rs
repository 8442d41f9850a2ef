//! The options of the program.
use vstd::prelude::*;

verus! {

/// What the program was asked to do.
pub struct Options {
    /// The servers to load balance.
    pub servers: Vec<String>,
    /// The address to listen on.
    pub bind: String,
    /// The URL of the Redis database.
    pub redis_url: String,
    /// Whether the backend servers are not updated through Redis.
    pub disable_redis: bool,
    /// The log level.
    pub log_level: String,
}

/// There is no server to load balance.
#[derive(Clone, Copy, PartialEq, Eq, Structural, Debug)]
pub struct NoServer;

impl Default for Options {
    fn default() -> (options: Options)
        ensures
            options.servers@.len() == 0,
            options.bind@ == "127.0.0.1:8000"@,
            options.redis_url@ == "redis://localhost"@,
            !options.disable_redis,
            options.log_level@ == "info"@,
    {
        Options {
            servers: Vec::new(),
            bind: "127.0.0.1:8000".to_owned(),
            redis_url: "redis://localhost".to_owned(),
            disable_redis: false,
            log_level: "info".to_owned(),
        }
    }
}

impl Options {
    /// Refuses options without a server to load balance.
    pub fn check(&self) -> (result: Result<(), NoServer>)
        ensures
            result is Err <==> self.servers@.len() == 0,
    {
        if self.servers.len() == 0 {
            Err(NoServer)
        } else {
            Ok(())
        }
    }
}

} // verus!
