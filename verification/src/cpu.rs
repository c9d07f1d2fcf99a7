//! One logical CPU, and the levels of the topology at which CPUs are
//! grouped.
use crate::numa::NodeInfo;
use vstd::prelude::*;

verus! {

pub type Node = u64;

pub type Socket = u64;

pub type Core = u64;

pub type Cpu = u64;

pub type L1 = u64;

pub type L2 = u64;

pub type L3 = u64;

pub type Online = u64;

pub type MHz = u64;

/// What a CPU is filed under at one level: the identifier of the level, and
/// after it the memory of the node at the node level and 0 at every other.
/// Keys are ordered by the first number, then by the second.
pub type Key = (u64, u64);

/// A level of the topology: the thing that the CPUs of one group share.
#[derive(Debug, Clone, Copy, PartialEq, Eq, Structural)]
pub enum Level {
    Cpu,
    Core,
    Socket,
    Node,
    L1,
    L2,
    L3,
}

/// A logical CPU (a hardware thread): its own number, the node, socket and
/// core that it sits on, and the identifiers of the caches that it uses. Two
/// CPUs with the same identifier at a level share that unit.
#[derive(Debug, Clone, Copy, PartialEq, Eq, Structural)]
pub struct CpuInfo {
    pub node: NodeInfo,
    pub socket: Socket,
    pub core: Core,
    pub cpu: Cpu,
    pub l1: L1,
    pub l2: L2,
    pub l3: L3,
}

impl CpuInfo {
    /// What the CPU is filed under at `level`.
    pub open spec fn key(self, level: Level) -> Key {
        match level {
            Level::Cpu => (self.cpu, 0),
            Level::Core => (self.core, 0),
            Level::Socket => (self.socket, 0),
            Level::Node => (self.node.node, self.node.memory),
            Level::L1 => (self.l1, 0),
            Level::L2 => (self.l2, 0),
            Level::L3 => (self.l3, 0),
        }
    }

    /// What the CPU is filed under at `level`.
    pub fn key_at(&self, level: Level) -> (k: Key)
        ensures
            k == self.key(level),
    {
        match level {
            Level::Cpu => (self.cpu, 0),
            Level::Core => (self.core, 0),
            Level::Socket => (self.socket, 0),
            Level::Node => (self.node.node, self.node.memory),
            Level::L1 => (self.l1, 0),
            Level::L2 => (self.l2, 0),
            Level::L3 => (self.l3, 0),
        }
    }
}

/// The key that stands for an identifier at a level other than the node
/// level.
pub open spec fn id_key(id: u64) -> Key {
    (id, 0)
}

/// The key that stands for a node.
pub open spec fn node_key(node: NodeInfo) -> Key {
    (node.node, node.memory)
}

/// The CPUs themselves that a list of references names.
pub open spec fn named(cpus: Seq<&CpuInfo>) -> Seq<CpuInfo> {
    cpus.map_values(|c: &CpuInfo| *c)
}

} // verus!
