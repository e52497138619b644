use vstd::prelude::*;

verus! {

/// Dense ordinal of a heap node: its position in the node array.
pub type NodeId = u32;

/// The kind of reference an edge of the heap graph stands for.
#[derive(Debug, Clone, Copy, PartialEq, Eq, Structural)]
pub enum EdgeType {
    Context,
    Element,
    Property,
    Internal,
    Hidden,
    Shortcut,
    Weak,
}

/// Why a snapshot could not be turned into a graph, or a query not answered.
#[derive(Debug)]
pub enum AnalyzerError {
    /// The snapshot could not be read; the text says why.
    Io(String),
    /// The snapshot's text is not what a snapshot looks like.
    Parse(String),
    /// The snapshot was read, but its contents contradict each other.
    InvalidFormat(String),
    /// A question was asked about a node that the graph does not have.
    Query(String),
}

impl AnalyzerError {
    /// The text carried by the error, whatever its kind.
    pub open spec fn spec_detail(&self) -> Seq<char> {
        match self {
            AnalyzerError::Io(s) => s@,
            AnalyzerError::Parse(s) => s@,
            AnalyzerError::InvalidFormat(s) => s@,
            AnalyzerError::Query(s) => s@,
        }
    }

    /// The text carried by the error, whatever its kind.
    pub fn detail(&self) -> (r: &str)
        ensures
            r@ == self.spec_detail(),
    {
        match self {
            AnalyzerError::Io(s) => s.as_str(),
            AnalyzerError::Parse(s) => s.as_str(),
            AnalyzerError::InvalidFormat(s) => s.as_str(),
            AnalyzerError::Query(s) => s.as_str(),
        }
    }
}

} // verus!
