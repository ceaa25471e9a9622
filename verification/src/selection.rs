//! Which storage engine a server runs with.
//!
//! A directory that a server has run in records the engine it ran with, in a
//! file named `engine`. A server that is started there again must run with
//! the same engine.

use vstd::prelude::*;
use crate::error::KvsError;

verus! {

/// A storage engine.
#[derive(Debug, Clone, Copy, PartialEq, Eq, Structural)]
pub enum Engine {
    /// The log-structured store of this library.
    Kvs,
    /// The engine built on the `sled` database.
    Sled,
}

/// The name of an engine, as it is written on the command line and in the
/// `engine` file.
pub open spec fn engine_name_of(engine: Engine) -> Seq<char> {
    match engine {
        Engine::Kvs => "kvs"@,
        Engine::Sled => "sled"@,
    }
}

/// The engine that the contents `text` of an `engine` file name: the name of
/// an engine, alone or followed by one line feed.
pub open spec fn recorded_engine(text: Seq<char>) -> Option<Engine> {
    if text == "kvs"@ || text == "kvs\n"@ {
        Some(Engine::Kvs)
    } else if text == "sled"@ || text == "sled\n"@ {
        Some(Engine::Sled)
    } else {
        None
    }
}

/// The engine to run with, for the engine asked for on the command line and
/// the one recorded in the directory: the one asked for, else the one
/// recorded, else `Kvs`; and none where one is asked for and another is
/// recorded.
pub open spec fn selected(asked: Option<Engine>, recorded: Option<Engine>) -> Option<Engine> {
    match (asked, recorded) {
        (Some(a), Some(r)) => if a == r {
            Some(a)
        } else {
            None
        },
        (Some(a), None) => Some(a),
        (None, Some(r)) => Some(r),
        (None, None) => Some(Engine::Kvs),
    }
}

/// The name of an engine.
pub fn engine_name(engine: Engine) -> (name: String)
    ensures
        name@ == engine_name_of(engine),
{
    match engine {
        Engine::Kvs => "kvs".to_string(),
        Engine::Sled => "sled".to_string(),
    }
}

/// Reads the contents of an `engine` file. Contents that name no engine give
/// `None`.
pub fn parse_engine(text: &str) -> (r: Option<Engine>)
    ensures
        r == recorded_engine(text@),
{
    let text = text.to_owned();
    if text == "kvs".to_string() || text == "kvs\n".to_string() {
        Some(Engine::Kvs)
    } else if text == "sled".to_string() || text == "sled\n".to_string() {
        Some(Engine::Sled)
    } else {
        None
    }
}

/// Chooses the engine to run with. Fails with `StringError` where the engine
/// asked for is not the one recorded.
pub fn select_engine(asked: Option<Engine>, recorded: Option<Engine>) -> (r: Result<
    Engine,
    KvsError,
>)
    ensures
        match selected(asked, recorded) {
            Some(engine) => r == Ok::<Engine, KvsError>(engine),
            None => r matches Err(KvsError::StringError(m)) && m@ == "Wrong engine!"@,
        },
{
    match (asked, recorded) {
        (Some(a), Some(r)) => {
            if a == r {
                Ok(a)
            } else {
                Err(KvsError::StringError("Wrong engine!".to_string()))
            }
        },
        (Some(a), None) => Ok(a),
        (None, Some(r)) => Ok(r),
        (None, None) => Ok(Engine::Kvs),
    }
}

} // verus!
