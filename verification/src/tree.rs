//! The data model: raw probe results as handed in by the caller, and the
//! override tree that records metadata differences rather than absolute
//! values.

use vstd::prelude::*;

verus! {

/// Whether a filesystem entry can contain further entries.
#[derive(Clone, Copy, Debug, PartialEq, Eq, Structural)]
pub enum FileKind {
    Directory,
    Leaf,
}

/// The kind of operating-system failure recorded for a single path.
#[derive(Clone, Copy, Debug, PartialEq, Eq, Structural)]
pub enum ProbeError {
    NotFound,
    PermissionDenied,
    Other,
}

/// Resolved (mode, uid, gid) of one entry, as handed down to its children
/// when their overrides are computed.
#[derive(Clone, Copy, Debug, PartialEq, Eq, Structural)]
pub struct Attrs {
    pub mode: u32,
    pub uid: u32,
    pub gid: u32,
}

/// Probed metadata of one entry: raw values, plus the listing of a
/// directory's immediate children.  A listing failure is recorded in place
/// of the children.
#[derive(Debug, PartialEq)]
pub struct RawData {
    pub mode: u32,
    pub uid: u32,
    pub gid: u32,
    pub kind: FileKind,
    pub listing: Result<Vec<RawNode>, ProbeError>,
}

/// One filesystem entry as probed by the caller, before any inheritance
/// analysis.  The name is the entry's final path component, kept as raw
/// bytes so that arbitrary filenames round-trip.
#[derive(Debug, PartialEq)]
pub struct RawNode {
    pub name: Vec<u8>,
    pub probe: Result<RawData, ProbeError>,
}

/// Metadata of one entry relative to its parent: each field is present
/// exactly when it differs from the parent's resolved value.
#[derive(Debug, PartialEq)]
pub struct NodeData {
    pub override_mode: Option<u32>,
    pub override_uid: Option<u32>,
    pub override_gid: Option<u32>,
    pub kind: FileKind,
    pub children: Result<Vec<Node>, ProbeError>,
}

/// One node of the override tree.  A node whose probe failed is a leaf
/// carrying only the error.
#[derive(Debug, PartialEq)]
pub struct Node {
    pub name: Vec<u8>,
    pub data: Result<NodeData, ProbeError>,
}

/// Mathematical model of `RawData`.
#[verifier::ext_equal]
pub ghost struct RawDataV {
    pub mode: u32,
    pub uid: u32,
    pub gid: u32,
    pub kind: FileKind,
    pub listing: Result<Seq<RawNodeV>, ProbeError>,
}

/// Mathematical model of `RawNode`.
#[verifier::ext_equal]
pub ghost struct RawNodeV {
    pub name: Seq<u8>,
    pub probe: Result<RawDataV, ProbeError>,
}

/// Mathematical model of `NodeData`.
#[verifier::ext_equal]
pub ghost struct NodeDataV {
    pub override_mode: Option<u32>,
    pub override_uid: Option<u32>,
    pub override_gid: Option<u32>,
    pub kind: FileKind,
    pub children: Result<Seq<NodeV>, ProbeError>,
}

/// Mathematical model of `Node`.
#[verifier::ext_equal]
pub ghost struct NodeV {
    pub name: Seq<u8>,
    pub data: Result<NodeDataV, ProbeError>,
}

pub open spec fn raw_view(r: RawNode) -> RawNodeV
    decreases r,
{
    RawNodeV {
        name: r.name@,
        probe: match r.probe {
            Result::Err(e) => Result::Err(e),
            Result::Ok(d) => Result::Ok(RawDataV {
                mode: d.mode,
                uid: d.uid,
                gid: d.gid,
                kind: d.kind,
                listing: match d.listing {
                    Result::Err(e) => Result::Err(e),
                    Result::Ok(cs) => Result::Ok(
                        Seq::new(
                            cs@.len(),
                            |i: int| if 0 <= i < cs@.len() {
                                raw_view(cs@[i])
                            } else {
                                arbitrary()
                            },
                        ),
                    ),
                },
            }),
        },
    }
}

impl View for RawNode {
    type V = RawNodeV;

    open spec fn view(&self) -> RawNodeV {
        raw_view(*self)
    }
}

pub open spec fn node_view(n: Node) -> NodeV
    decreases n,
{
    NodeV {
        name: n.name@,
        data: match n.data {
            Result::Err(e) => Result::Err(e),
            Result::Ok(d) => Result::Ok(NodeDataV {
                override_mode: d.override_mode,
                override_uid: d.override_uid,
                override_gid: d.override_gid,
                kind: d.kind,
                children: match d.children {
                    Result::Err(e) => Result::Err(e),
                    Result::Ok(cs) => Result::Ok(
                        Seq::new(
                            cs@.len(),
                            |i: int| if 0 <= i < cs@.len() {
                                node_view(cs@[i])
                            } else {
                                arbitrary()
                            },
                        ),
                    ),
                },
            }),
        },
    }
}

impl View for Node {
    type V = NodeV;

    open spec fn view(&self) -> NodeV {
        node_view(*self)
    }
}

/// The models of a sequence of tree nodes.
pub open spec fn node_views(s: Seq<Node>) -> Seq<NodeV> {
    Seq::new(s.len(), |i: int| node_view(s[i]))
}

/// The actual (mode, uid, gid) of a node: each field is its override where
/// present, and the inherited parent value otherwise.
pub open spec fn resolved_attrs(d: NodeDataV, inherited: Attrs) -> Attrs {
    Attrs {
        mode: match d.override_mode {
            Option::Some(m) => m,
            Option::None => inherited.mode,
        },
        uid: match d.override_uid {
            Option::Some(u) => u,
            Option::None => inherited.uid,
        },
        gid: match d.override_gid {
            Option::Some(g) => g,
            Option::None => inherited.gid,
        },
    }
}

} // verus!
