//! Traversal Engine: the single preorder walk both renderers consume.  It
//! flattens a tree into the sequence of (depth, name, overrides) visits, a
//! node before its successfully listed children, one level deeper.

use vstd::prelude::*;
use crate::tree::{Node, NodeV, ProbeError, node_view};
use crate::builder::copy_bytes;

verus! {

/// The override triple of one visited node.
#[derive(Clone, Copy, Debug, PartialEq, Eq, Structural)]
pub struct OverrideSet {
    pub mode: Option<u32>,
    pub uid: Option<u32>,
    pub gid: Option<u32>,
}

/// One step of a preorder walk: the node's depth, name, and what a
/// renderer needs of its data.
pub struct Visit {
    pub depth: usize,
    pub name: Vec<u8>,
    pub probe: Result<OverrideSet, ProbeError>,
}

/// Mathematical model of `Visit`.
#[verifier::ext_equal]
pub ghost struct VisitV {
    pub depth: nat,
    pub name: Seq<u8>,
    pub probe: Result<OverrideSet, ProbeError>,
}

impl View for Visit {
    type V = VisitV;

    open spec fn view(&self) -> VisitV {
        VisitV { depth: self.depth as nat, name: self.name@, probe: self.probe }
    }
}

/// The models of a visit sequence.
pub open spec fn visit_views(s: Seq<Visit>) -> Seq<VisitV> {
    Seq::new(s.len(), |i: int| s[i]@)
}

/// The visit made at one node.
pub open spec fn visit_of(n: NodeV, depth: nat) -> VisitV {
    VisitV {
        depth,
        name: n.name,
        probe: match n.data {
            Result::Err(e) => Result::Err(e),
            Result::Ok(d) => Result::Ok(OverrideSet {
                mode: d.override_mode,
                uid: d.override_uid,
                gid: d.override_gid,
            }),
        },
    }
}

/// The visits of the first `i` children of a node at depth `depth - 1`.
pub open spec fn preorder_children(cs: Seq<NodeV>, depth: nat, i: int) -> Seq<VisitV>
    decreases cs, i,
{
    if i <= 0 || i > cs.len() {
        Seq::empty()
    } else {
        preorder_children(cs, depth, i - 1) + preorder_spec(cs[i - 1], depth)
    }
}

/// The preorder visit sequence of a subtree rooted at `depth`.
pub open spec fn preorder_spec(n: NodeV, depth: nat) -> Seq<VisitV>
    decreases n, 0int,
{
    seq![visit_of(n, depth)] + if n.data is Ok && n.data->Ok_0.children is Ok {
        preorder_children(
            n.data->Ok_0.children->Ok_0,
            depth + 1,
            n.data->Ok_0.children->Ok_0.len() as int,
        )
    } else {
        Seq::empty()
    }
}

/// The height of a tree: one more than its tallest successfully listed
/// subtree.
pub open spec fn height(n: NodeV) -> nat
    decreases n, 0int,
{
    1 + if n.data is Ok && n.data->Ok_0.children is Ok {
        heights_max(n.data->Ok_0.children->Ok_0, n.data->Ok_0.children->Ok_0.len() as int)
    } else {
        0
    }
}

/// The greatest height among the first `i` nodes of a sequence.
pub open spec fn heights_max(cs: Seq<NodeV>, i: int) -> nat
    decreases cs, i,
{
    if i <= 0 || i > cs.len() {
        0
    } else {
        let rest = heights_max(cs, i - 1);
        if height(cs[i - 1]) > rest {
            height(cs[i - 1])
        } else {
            rest
        }
    }
}

proof fn lemma_height_child(cs: Seq<NodeV>, i: int, j: int)
    requires
        0 <= j < i <= cs.len(),
    ensures
        heights_max(cs, i) >= height(cs[j]),
    decreases i,
{
    if j < i - 1 {
        lemma_height_child(cs, i - 1, j);
    }
}

/// Perform a preorder traversal of the subtree, appending one visit per
/// node.  `depth` is the subtree root's depth.
pub fn preorder_traversal(node: &Node, depth: usize, out: &mut Vec<Visit>)
    requires
        depth + height(node_view(*node)) <= usize::MAX,
    ensures
        visit_views(final(out)@) == visit_views(old(out)@) + preorder_spec(
            node_view(*node),
            depth as nat,
        ),
    decreases *node,
{
    let ghost nv = node_view(*node);
    let ghost base = visit_views(out@);
    let v = Visit {
        depth,
        name: copy_bytes(&node.name),
        probe: match &node.data {
            Result::Err(e) => Result::Err(*e),
            Result::Ok(d) => Result::Ok(OverrideSet {
                mode: d.override_mode,
                uid: d.override_uid,
                gid: d.override_gid,
            }),
        },
    };
    out.push(v);
    proof {
        assert(visit_views(out@) =~= base + seq![visit_of(nv, depth as nat)]);
    }
    match &node.data {
        Result::Err(_) => {
            proof {
                assert(base + seq![visit_of(nv, depth as nat)] =~= base + preorder_spec(
                    nv,
                    depth as nat,
                ));
            }
        },
        Result::Ok(d) => {
            match &d.children {
                Result::Err(_) => {
                    proof {
                        assert(base + seq![visit_of(nv, depth as nat)] =~= base + preorder_spec(
                            nv,
                            depth as nat,
                        ));
                    }
                },
                Result::Ok(cs) => {
                    let ghost csv = nv.data->Ok_0.children->Ok_0;
                    proof {
                        assert(csv.len() == cs@.len());
                        assert(forall|i: int| 0 <= i < cs@.len() ==> csv[i] == node_view(
                            #[trigger] cs@[i],
                        ));
                    }
                    let mut i: usize = 0;
                    while i < cs.len()
                        invariant
                            i <= cs.len(),
                            node.data is Ok,
                            node.data->Ok_0.children is Ok,
                            node.data->Ok_0.children->Ok_0@ == cs@,
                            nv == node_view(*node),
                            csv == nv.data->Ok_0.children->Ok_0,
                            csv.len() == cs@.len(),
                            forall|k: int| 0 <= k < cs@.len() ==> csv[k] == node_view(
                                #[trigger] cs@[k],
                            ),
                            depth + height(nv) <= usize::MAX,
                            visit_views(out@) == base + seq![visit_of(nv, depth as nat)]
                                + preorder_children(csv, depth as nat + 1, i as int),
                        decreases cs.len() - i,
                    {
                        proof {
                            assert(height(nv) == 1 + heights_max(csv, csv.len() as int));
                            lemma_height_child(csv, csv.len() as int, i as int);
                            assert(decreases_to!(*node =>
                                node.data->Ok_0.children->Ok_0@[i as int]));
                        }
                        let ghost before = visit_views(out@);
                        preorder_traversal(&cs[i], depth + 1, out);
                        proof {
                            assert(visit_views(out@) =~= (base + seq![visit_of(nv, depth as nat)])
                                + (preorder_children(csv, depth as nat + 1, i as int)
                                    + preorder_spec(csv[i as int], depth as nat + 1)));
                        }
                        i += 1;
                    }
                    proof {
                        assert(base + seq![visit_of(nv, depth as nat)] + preorder_children(
                            csv,
                            depth as nat + 1,
                            csv.len() as int,
                        ) =~= base + preorder_spec(nv, depth as nat));
                    }
                },
            }
        },
    }
}

/// The preorder visits of a whole tree, root at depth zero.
pub fn preorder(root: &Node) -> (r: Vec<Visit>)
    requires
        height(node_view(*root)) <= usize::MAX,
    ensures
        visit_views(r@) == preorder_spec(node_view(*root), 0),
    decreases *root,
{
    let mut out: Vec<Visit> = Vec::new();
    proof {
        assert(visit_views(out@) =~= Seq::<VisitV>::empty());
    }
    preorder_traversal(root, 0, &mut out);
    proof {
        assert(Seq::<VisitV>::empty() + preorder_spec(node_view(*root), 0) =~= preorder_spec(
            node_view(*root),
            0,
        ));
    }
    out
}

} // verus!
