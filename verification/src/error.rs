//! The single error type of the engine.

use vstd::prelude::*;

use crate::text::text;

verus! {

/// std's I/O error, carried unopened inside `MapReduceError::Io`.
#[verifier::external_type_specification]
#[verifier::external_body]
pub struct ExIoError(std::io::Error);

#[derive(Debug)]
pub enum MapReduceError {
    InvalidJobConfig(String),
    MapPhase(String),
    Reduce(String),
    Shuffle(String),
    Executor(String),
    Io { path: Option<String>, source: std::io::Error },
}

/// The text that `Display` of an I/O error gives; it comes from the operating
/// system, so nothing is stated of it.
#[verifier::external_body]
fn io_error_text(e: &std::io::Error) -> String {
    format!("{}", e)
}

/// The leading text of the message for each kind of error.
pub open spec fn message_prefix(e: MapReduceError) -> Seq<char> {
    match e {
        MapReduceError::InvalidJobConfig(m) => "Invalid job configuration: "@ + m@,
        MapReduceError::MapPhase(m) => "map phase failed: "@ + m@,
        MapReduceError::Reduce(m) => "reduce phase failed: "@ + m@,
        MapReduceError::Shuffle(m) => "shuffle phase failed: "@ + m@,
        MapReduceError::Executor(m) => "executor phase failed: "@ + m@,
        MapReduceError::Io { path: Some(p), .. } => "I/O error at "@ + p@ + ": "@,
        MapReduceError::Io { path: None, .. } => "I/O error: "@,
    }
}

/// The message of an I/O error: where it happened, when known, then the text
/// that describes the I/O error itself.
pub open spec fn io_message_text(path: Option<Seq<char>>, io_text: Seq<char>) -> Seq<char> {
    (match path {
        Some(p) => "I/O error at "@ + p + ": "@,
        None => "I/O error: "@,
    }) + io_text
}

/// Puts together the message of an I/O error from the path it happened at, if
/// any, and the I/O error's own text.
pub fn io_message(path: Option<&str>, io_text: &str) -> (r: String)
    ensures
        r@ == io_message_text(
            match path {
                Some(p) => Some(p@),
                None => None,
            },
            io_text@,
        ),
{
    let head = match path {
        Some(p) => text("I/O error at ").concat(p).concat(": "),
        None => text("I/O error: "),
    };
    head.concat(io_text)
}

impl MapReduceError {
    pub fn io(source: std::io::Error) -> (r: Self)
        ensures
            r == (MapReduceError::Io { path: None, source }),
    {
        MapReduceError::Io { path: None, source }
    }

    pub fn io_with_path(path: &str, source: std::io::Error) -> (r: Self)
        ensures
            r matches MapReduceError::Io { path: Some(p), source: s } && p@ == path@ && s == source,
    {
        MapReduceError::Io { path: Some(String::from_str(path)), source }
    }

    /// The human-readable message of the error: the kind's prefix followed by its
    /// detail; for an I/O error the operating system's text ends the message.
    pub fn message(&self) -> (r: String)
        ensures
            !(*self is Io) ==> r@ == message_prefix(*self),
            *self is Io ==> r@.len() >= message_prefix(*self).len() && r@.subrange(
                0,
                message_prefix(*self).len() as int,
            ) == message_prefix(*self),
    {
        match self {
            MapReduceError::InvalidJobConfig(m) => text("Invalid job configuration: ").concat(
                m.as_str(),
            ),
            MapReduceError::MapPhase(m) => text("map phase failed: ").concat(m.as_str()),
            MapReduceError::Reduce(m) => text("reduce phase failed: ").concat(m.as_str()),
            MapReduceError::Shuffle(m) => text("shuffle phase failed: ").concat(m.as_str()),
            MapReduceError::Executor(m) => text("executor phase failed: ").concat(m.as_str()),
            MapReduceError::Io { path, source } => {
                let tail = io_error_text(source);
                let at = match path {
                    Some(p) => Some(p.as_str()),
                    None => None,
                };
                let r = io_message(at, tail.as_str());
                assert(r@.subrange(0, message_prefix(*self).len() as int) =~= message_prefix(*self));
                r
            },
        }
    }

    /// The underlying I/O error, for the `Io` kind only.
    pub fn source(&self) -> (r: Option<&std::io::Error>)
        ensures
            match *self {
                MapReduceError::Io { source, .. } => r == Some(&source),
                _ => r is None,
            },
    {
        match self {
            MapReduceError::Io { source, .. } => Some(source),
            _ => None,
        }
    }
}

impl From<std::io::Error> for MapReduceError {
    fn from(source: std::io::Error) -> (r: Self) {
        MapReduceError::io(source)
    }
}

impl vstd::std_specs::convert::FromSpecImpl<std::io::Error> for MapReduceError {
    open spec fn obeys_from_spec() -> bool {
        true
    }

    open spec fn from_spec(v: std::io::Error) -> Self {
        MapReduceError::Io { path: None, source: v }
    }
}

} // verus!
