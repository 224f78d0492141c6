//! The in-memory device-topology model the verified core works on.
//!
//! Nodes ("geoms") are disks, partition tables, labels and device nodes;
//! edges are provider/consumer relationships carrying per-edge metadata.
//! Nodes are keyed by their index in `Graph::nodes`; the child edges of the
//! node with index `i` stand in `Graph::child_edges[i]`.

use vstd::prelude::*;

verus! {

/// The class tag of a geom node.
#[derive(Clone, Copy, Debug, PartialEq, Eq, Structural)]
pub enum GeomClass {
    /// Floppy disk
    FD,
    RAID,
    /// Physical storage device (SATA, NVMe, IDE)
    DISK,
    /// Virtual character-device node
    DEV,
    /// Partition table (GPT, MBR, ...)
    PART,
    /// Alias for another geom (serial number, partition label, ...)
    LABEL,
    VFS,
    SWAP,
    Flashmap,
    /// Memory disk (virtual device)
    MD,
}

/// Per-edge metadata; the variant depends on the class of the provider node.
#[derive(Debug)]
pub enum EdgeMetadata {
    /// Metadata of an edge descending from a `DISK` node.
    DISK {
        fwheads: u64,
        fwsectors: u64,
        rotationrate: u64,
        ident: String,
        lunid: String,
        descr: String,
    },
    /// Metadata of an edge descending from a `PART` node: one partition entry.
    PART {
        start: u64,
        end: u64,
        index: u64,
        type_: String,
        offset: u64,
        length: u64,
        label: Option<String>,
        rawtype: Option<String>,
        rawuuid: Option<String>,
        efimedia: Option<String>,
    },
    /// Metadata of an edge descending from a `LABEL` node.
    LABEL { index: u64, offset: u64, length: u64, seclength: u64, secoffset: u64 },
}

/// A node of the device graph.
#[derive(Debug)]
pub struct Geom {
    pub class: GeomClass,
    /// Display name, such as "ada0".  Names are not unique.
    pub name: String,
    /// Height of the node in its tree; a root has rank 1.
    pub rank: u64,
}

/// A provider/consumer edge of the device graph.
#[derive(Debug)]
pub struct Edge {
    /// The edge's own display name (for a partition entry, the partition's
    /// name, not the partition table's).
    pub name: String,
    /// Size of the logical volume represented, in bytes.
    pub mediasize: u64,
    /// Metadata for edges descending from `DISK`, `PART` or `LABEL` nodes.
    pub metadata: Option<EdgeMetadata>,
    /// Index in `Graph::nodes` of the consumer (child) node.
    pub consumer_geom: usize,
}

/// A snapshot of the whole device graph.
#[derive(Debug)]
pub struct Graph {
    /// All nodes of the graph.
    pub nodes: Vec<Geom>,
    /// `child_edges[i]` holds the edges whose provider is `nodes[i]`.
    pub child_edges: Vec<Vec<Edge>>,
}

impl Graph {
    /// Structural well-formedness: one child-edge list per node, and every
    /// edge's consumer index in range.
    pub open spec fn wf(self) -> bool {
        &&& self.child_edges@.len() == self.nodes@.len()
        &&& forall|i: int, j: int|
            0 <= i < self.child_edges@.len() && 0 <= j < self.child_edges@[i]@.len()
                ==> (#[trigger] self.child_edges@[i]@[j]).consumer_geom < self.nodes@.len()
    }

    /// The child edges of the node with index `i`.
    pub open spec fn edges_of(self, i: int) -> Seq<Edge> {
        self.child_edges@[i]@
    }
}

} // verus!
