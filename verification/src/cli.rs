//! The server's configuration surface: which backend to run, its default
//! listen address, and the guard that keeps one working directory from
//! mixing two backends' on-disk artifacts.

use vstd::prelude::*;

use crate::err::Error;

verus! {

/// The backend a server runs.
#[derive(PartialEq, Eq, Structural, Hash, Debug, Clone, Copy)]
pub enum Engine {
    /// The log-structured store.
    Kvs,
    /// The external embedded-database store.
    Sled,
    /// The in-memory store.
    Mem,
}

impl Engine {
    /// The engine's name as shown to an operator.
    pub open spec fn label(&self) -> Seq<char> {
        match self {
            Engine::Kvs => "kvs"@,
            Engine::Sled => "sled"@,
            Engine::Mem => "in-memory"@,
        }
    }

    /// The engine's name as shown to an operator.
    pub fn as_str(&self) -> (r: &'static str)
        ensures
            r@ == self.label(),
    {
        match self {
            Engine::Kvs => "kvs",
            Engine::Sled => "sled",
            Engine::Mem => "in-memory",
        }
    }
}

impl Default for Engine {
    /// The log-structured store is the default backend.
    fn default() -> (r: Self)
        ensures
            r == Engine::Kvs,
    {
        Engine::Kvs
    }
}

/// A server's configuration: where to listen and which backend to run.
pub struct Server {
    /// The address of the server.
    pub addr: String,
    /// The underlying engine to use.
    pub engine: Engine,
}

impl Default for Server {
    /// Listen locally with the log-structured store.
    fn default() -> (r: Self)
        ensures
            r.addr@ == "127.0.0.1:4004"@,
            r.engine == Engine::Kvs,
    {
        Server { addr: String::from_str("127.0.0.1:4004"), engine: Engine::Kvs }
    }
}

/// Engine selection is exclusive per working directory: starting one
/// backend while another backend's database file already exists must fail
/// fast rather than create a second, inconsistent store. The caller reports
/// which on-disk artifacts it found.
pub fn check_engine_db_file(engine: &Engine, kvs_db_exists: bool, sled_db_exists: bool) -> (r:
    Result<(), Error>)
    ensures
        r is Ok <==> ((*engine == Engine::Kvs || !kvs_db_exists) && (*engine == Engine::Sled
            || !sled_db_exists)),
        r matches Err(e) ==> e is Whatever,
{
    if *engine != Engine::Kvs && kvs_db_exists {
        Err(
            Error::Whatever {
                message: String::from_str(
                    "Current engine differs from kvs while database file for engine kvs existed",
                ),
            },
        )
    } else if *engine != Engine::Sled && sled_db_exists {
        Err(
            Error::Whatever {
                message: String::from_str(
                    "Current engine differs from sled while database file for engine sled existed",
                ),
            },
        )
    } else {
        Ok(())
    }
}

} // verus!
