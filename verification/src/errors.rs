use vstd::prelude::*;

verus! {

/// The class of failure an operation reports.
#[derive(Clone, Copy, Debug, PartialEq, Eq, Structural)]
pub enum RedisErrorKind {
    /// A malformed configuration input, such as a bad `host:port` string.
    Config,
    /// A malformed server response: wrong arity, wrong element types.
    Protocol,
    /// An input/output failure, such as a DNS lookup with no results.
    IO,
}

/// An error surfaced by routing, parsing or scan-page transforms.
#[derive(Clone, Debug)]
pub struct RedisError {
    pub kind: RedisErrorKind,
    pub details: String,
}

impl RedisError {
    pub fn new(kind: RedisErrorKind, details: &str) -> (r: RedisError)
        ensures
            r.kind == kind,
            r.details@ == details@,
    {
        RedisError { kind, details: details.to_owned() }
    }

    pub fn kind(&self) -> (k: RedisErrorKind)
        ensures
            k == self.kind,
    {
        self.kind
    }
}

} // verus!
