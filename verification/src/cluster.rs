//! Configuration of a local cluster of nodes, and the buffer sizes a node reports.
use vstd::prelude::*;
use vstd::string::*;

verus! {

/// The configuration of a local cluster.
#[derive(Debug)]
pub struct AegeriLocalClusterConfig {
    /// The number of Aegeri harts to start.
    pub count: usize,
    /// The topic to use for all gossamer nodes.
    pub topic: String,
}

impl AegeriLocalClusterConfig {
    pub fn with_count(self, count: usize) -> (r: Self)
        ensures
            r.count == count,
            r.topic@ == self.topic@,
    {
        AegeriLocalClusterConfig { count, topic: self.topic }
    }

    pub fn with_topic(self, topic: String) -> (r: Self)
        ensures
            r.count == self.count,
            r.topic@ == topic@,
    {
        AegeriLocalClusterConfig { count: self.count, topic }
    }
}

impl Default for AegeriLocalClusterConfig {
    /// Three harts on the topic `aegeri`.
    fn default() -> (r: Self)
        ensures
            r.count == 3,
            r.topic@ == "aegeri"@,
    {
        AegeriLocalClusterConfig { count: 3, topic: String::from_str("aegeri") }
    }
}

impl Clone for AegeriLocalClusterConfig {
    fn clone(&self) -> (r: Self)
        ensures
            r.count == self.count,
            r.topic@ == self.topic@,
    {
        AegeriLocalClusterConfig { count: self.count, topic: self.topic.clone() }
    }
}

/// The number of entries in each buffer of a hart.
#[derive(Debug, Clone, Copy, PartialEq, Eq, Structural)]
pub struct AegeriBufferSizes {
    pub messages: usize,
    pub transaction: usize,
    pub certificate: usize,
    pub agreement: usize,
    pub task: usize,
}

} // verus!
