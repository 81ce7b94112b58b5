use vstd::prelude::*;

verus! {

/// If errors occur when creating or processing a `Graph` this `Error` is returned.
#[derive(Clone, Debug)]
pub struct Error {
    pub kind: ErrorKind,
    pub message: String,
}

/// The different kinds of errors that can occur while creating and analyzing graphs.
#[derive(Clone, Copy, Debug, PartialEq, Eq, Structural)]
pub enum ErrorKind {
    /// Contradictory paths were found when computing shortest paths.
    ContradictoryPaths,
    /// A duplicate edge was added to a graph that doesn't support multi edges.
    DuplicateEdge,
    /// An argument to a function was not a valid value.
    InvalidArgument,
    /// A node was requested from a graph but the node doesn't exist.
    NodeNotFound,
    /// No partitions were found.
    NoPartitions,
    /// The specified communities did not form a partition of a graph.
    NotAPartition,
    /// An edge was requested from a graph but the edge doesn't exist.
    EdgeNotFound,
    /// An algorithm requiring an edge to have a weight was invoked but an edge
    /// whose weight is not a number was found in the graph.
    EdgeWeightNotSpecified,
    /// An algorithm failed to converge to the specified tolerance within the
    /// specified number of iterations of a power iteration method.
    PowerIterationFailedConvergence,
    /// An error occurred while reading a graph from a file.
    ReadError,
    /// A self-loop was added to a graph that doesn't allow self-loops.
    SelfLoopsFound,
    /// A method was invoked on a graph whose specs are not supported by the method.
    WrongMethod,
}

/// The text that describes each kind of error.
pub open spec fn error_kind_text(kind: ErrorKind) -> Seq<char> {
    match kind {
        ErrorKind::ContradictoryPaths => "contradictory paths"@,
        ErrorKind::DuplicateEdge => "duplicate edge detected"@,
        ErrorKind::EdgeNotFound => "edge not found"@,
        ErrorKind::EdgeWeightNotSpecified => "edge weight not found"@,
        ErrorKind::InvalidArgument => "invalid argument"@,
        ErrorKind::NodeNotFound => "node not found"@,
        ErrorKind::NoPartitions => "no partitions were found"@,
        ErrorKind::NotAPartition => "communities were not a partition"@,
        ErrorKind::PowerIterationFailedConvergence =>
            "failed to converge to the specified tolerance within the specified number of iterations"@,
        ErrorKind::ReadError => "error reading graph from file"@,
        ErrorKind::SelfLoopsFound => "self loops found"@,
        ErrorKind::WrongMethod => "wrong method was used"@,
    }
}

impl ErrorKind {
    /// The human-readable description of the error kind.
    pub fn to_string(&self) -> (s: String)
        ensures
            s@ == error_kind_text(*self),
    {
        let text = match self {
            ErrorKind::ContradictoryPaths => "contradictory paths",
            ErrorKind::DuplicateEdge => "duplicate edge detected",
            ErrorKind::EdgeNotFound => "edge not found",
            ErrorKind::EdgeWeightNotSpecified => "edge weight not found",
            ErrorKind::InvalidArgument => "invalid argument",
            ErrorKind::NodeNotFound => "node not found",
            ErrorKind::NoPartitions => "no partitions were found",
            ErrorKind::NotAPartition => "communities were not a partition",
            ErrorKind::PowerIterationFailedConvergence =>
                "failed to converge to the specified tolerance within the specified number of iterations",
            ErrorKind::ReadError => "error reading graph from file",
            ErrorKind::SelfLoopsFound => "self loops found",
            ErrorKind::WrongMethod => "wrong method was used",
        };
        text.to_owned()
    }
}

impl Error {
    /// Builds an error of the given kind with the given message.
    pub fn new(kind: ErrorKind, message: &str) -> (e: Error)
        ensures
            e.kind == kind,
            e.message@ == message@,
    {
        Error { kind, message: message.to_owned() }
    }

    /// The error's message, which is what the error displays as.
    pub fn to_string(&self) -> (s: String)
        ensures
            s@ == self.message@,
    {
        self.message.clone()
    }
}

} // verus!
