//! Pruner: removes subtrees that are informationally empty.  A node is kept
//! exactly when it carries an error, an override, or a descendant that does;
//! everything else is pure inheritance and is dropped.

use vstd::prelude::*;
use crate::tree::{Node, NodeData, NodeDataV, NodeV, node_view, node_views};

verus! {

/// The survivors of pruning a children sequence from index `i` on, in order.
pub open spec fn prune_seq(cs: Seq<NodeV>, i: int) -> Seq<NodeV>
    decreases cs, cs.len() - i,
{
    if i < 0 || i >= cs.len() {
        Seq::empty()
    } else {
        match prune_spec(cs[i]) {
            Option::Some(k) => seq![k] + prune_seq(cs, i + 1),
            Option::None => prune_seq(cs, i + 1),
        }
    }
}

/// What pruning returns.  Errors are never discarded; a node whose listing
/// failed is kept as it stands; otherwise the node is kept if and only if
/// it records an override or keeps at least one child after pruning.
pub open spec fn prune_spec(n: NodeV) -> Option<NodeV>
    decreases n, 0int,
{
    match n.data {
        Result::Err(_) => Option::Some(n),
        Result::Ok(d) => match d.children {
            Result::Err(_) => Option::Some(n),
            Result::Ok(cs) => {
                let kept = prune_seq(n.data->Ok_0.children->Ok_0, 0);
                if d.override_mode is None && d.override_uid is None
                    && d.override_gid is None && kept.len() == 0 {
                    Option::None
                } else {
                    Option::Some(NodeV {
                        name: n.name,
                        data: Result::Ok(NodeDataV {
                            override_mode: d.override_mode,
                            override_uid: d.override_uid,
                            override_gid: d.override_gid,
                            kind: d.kind,
                            children: Result::Ok(kept),
                        }),
                    })
                }
            },
        },
    }
}

/// Prune away subtrees that have only inherited fields.
pub fn prune(node: Node) -> (r: Option<Node>)
    ensures
        r is Some <==> prune_spec(node_view(node)) is Some,
        r is Some ==> node_view(r->0) == prune_spec(node_view(node))->0,
    decreases node,
{
    let ghost nv = node_view(node);
    match node {
        Node { name, data: Result::Err(e) } => {
            let out = Node { name, data: Result::Err(e) };
            proof {
                assert(node_view(out) =~= nv);
            }
            Option::Some(out)
        },
        Node {
            name,
            data: Result::Ok(NodeData {
                override_mode,
                override_uid,
                override_gid,
                kind,
                children: Result::Err(e),
            }),
        } => {
            let out = Node {
                name,
                data: Result::Ok(NodeData {
                    override_mode,
                    override_uid,
                    override_gid,
                    kind,
                    children: Result::Err(e),
                }),
            };
            proof {
                assert(node_view(out) =~= nv);
                assert(prune_spec(nv) == Option::Some(nv));
            }
            Option::Some(out)
        },
        Node {
            name,
            data: Result::Ok(NodeData {
                override_mode,
                override_uid,
                override_gid,
                kind,
                children: Result::Ok(cs),
            }),
        } => {
            let ghost cs0 = cs@;
            let ghost csv = node_views(cs@);
            proof {
                assert(nv.data->Ok_0.children->Ok_0 =~= csv);
            }
            let mut rest = cs;
            let mut kept: Vec<Node> = Vec::new();
            let ghost mut i: int = 0;
            proof {
                assert(rest@ =~= cs0.skip(0));
                assert(node_views(kept@) =~= Seq::<NodeV>::empty());
            }
            while rest.len() > 0
                invariant
                    0 <= i <= cs0.len(),
                    csv == node_views(cs0),
                    csv.len() == cs0.len(),
                    rest@ == cs0.skip(i),
                    node.data is Ok,
                    node.data->Ok_0.children is Ok,
                    node.data->Ok_0.children->Ok_0@ == cs0,
                    prune_seq(csv, 0) == node_views(kept@) + prune_seq(csv, i),
                decreases rest@.len(),
            {
                let c = rest.remove(0);
                proof {
                    assert(c == cs0[i]);
                    assert(rest@ =~= cs0.skip(i + 1));
                    assert(node_views(cs0)[i] == node_view(cs0[i]));
                    assert(decreases_to!(node => node.data->Ok_0.children->Ok_0@[i]));
                }
                let po = prune(c);
                let ghost kept_before = node_views(kept@);
                match po {
                    Option::Some(p) => {
                        kept.push(p);
                        proof {
                            let k = prune_spec(csv[i])->0;
                            assert(node_view(p) == k);
                            assert(node_views(kept@) =~= kept_before + seq![k]);
                            assert(prune_seq(csv, i) == seq![k] + prune_seq(csv, i + 1));
                            assert(kept_before + (seq![k] + prune_seq(csv, i + 1))
                                =~= (kept_before + seq![k]) + prune_seq(csv, i + 1));
                        }
                    },
                    Option::None => {
                        proof {
                            assert(prune_spec(csv[i]) is None);
                            assert(prune_seq(csv, i) == prune_seq(csv, i + 1));
                        }
                    },
                }
                proof {
                    i = i + 1;
                }
            }
            proof {
                assert(i == cs0.len());
                assert(prune_seq(csv, i) =~= Seq::<NodeV>::empty());
                assert(node_views(kept@) + prune_seq(csv, i) =~= node_views(kept@));
                assert(prune_seq(csv, 0) == node_views(kept@));
            }
            let all_inherited = override_mode.is_none() && override_uid.is_none()
                && override_gid.is_none();
            if all_inherited && kept.len() == 0 {
                proof {
                    assert(node_views(kept@).len() == 0);
                    assert(prune_spec(nv) is None);
                }
                Option::None
            } else {
                let out = Node {
                    name,
                    data: Result::Ok(NodeData {
                        override_mode,
                        override_uid,
                        override_gid,
                        kind,
                        children: Result::Ok(kept),
                    }),
                };
                proof {
                    assert(node_views(kept@).len() == kept@.len());
                    assert(prune_spec(nv) is Some);
                    let w = prune_spec(nv)->0;
                    assert(node_view(out).data->Ok_0.children->Ok_0 =~= node_views(kept@));
                    assert(w.data->Ok_0.children->Ok_0 == prune_seq(csv, 0));
                    assert(node_view(out).data->Ok_0.children == w.data->Ok_0.children);
                    assert(node_view(out).data->Ok_0 =~= w.data->Ok_0);
                    assert(node_view(out) =~= w);
                }
                Option::Some(out)
            }
        },
    }
}

} // verus!

verus! {

/// A node carries information: an error, an override, or a descendant
/// that does.
pub open spec fn has_info(n: NodeV) -> bool
    decreases n, 0int,
{
    if n.data is Err {
        true
    } else {
        let d = n.data->Ok_0;
        ||| d.children is Err
        ||| d.override_mode is Some
        ||| d.override_uid is Some
        ||| d.override_gid is Some
        ||| (d.children is Ok && exists|i: int|
            0 <= i < n.data->Ok_0.children->Ok_0.len()
                && has_info(n.data->Ok_0.children->Ok_0[i]))
    }
}

/// Pruning soundness: a node survives pruning if and only if it has an
/// override, a surviving descendant, or an error.
pub proof fn lemma_prune_sound(n: NodeV)
    ensures
        prune_spec(n) is Some <==> has_info(n),
    decreases n, 1int,
{
    if n.data is Ok && n.data->Ok_0.children is Ok {
        lemma_prune_seq_sound(n.data->Ok_0.children->Ok_0, 0);
    }
}

proof fn lemma_prune_seq_sound(cs: Seq<NodeV>, i: int)
    requires
        0 <= i,
    ensures
        prune_seq(cs, i).len() > 0 <==> exists|j: int| i <= j < cs.len() && has_info(cs[j]),
    decreases cs, cs.len() - i, 0int,
{
    if 0 <= i < cs.len() {
        lemma_prune_sound(cs[i]);
        lemma_prune_seq_sound(cs, i + 1);
        if prune_spec(cs[i]) is Some {
            assert(i <= i < cs.len() && has_info(cs[i]));
            assert(prune_seq(cs, i).len() > 0);
        } else {
            assert(prune_seq(cs, i) == prune_seq(cs, i + 1));
            if prune_seq(cs, i).len() > 0 {
                let j = choose|j: int| i + 1 <= j < cs.len() && has_info(cs[j]);
                assert(i <= j < cs.len() && has_info(cs[j]));
            }
            if exists|j: int| i <= j < cs.len() && has_info(cs[j]) {
                let j = choose|j: int| i <= j < cs.len() && has_info(cs[j]);
                if j == i {
                    assert(prune_spec(cs[i]) is Some);
                } else {
                    assert(i + 1 <= j < cs.len() && has_info(cs[j]));
                }
            }
        }
    }
}

/// Pruning idempotence: pruning an already-pruned tree keeps it unchanged.
pub proof fn lemma_prune_idempotent(n: NodeV)
    ensures
        prune_spec(n) is Some ==> prune_spec(prune_spec(n)->0) == Option::Some(
            prune_spec(n)->0,
        ),
    decreases n, 1int,
{
    if n.data is Ok && n.data->Ok_0.children is Ok {
        let d = n.data->Ok_0;
        let cs = n.data->Ok_0.children->Ok_0;
        let kept = prune_seq(cs, 0);
        if prune_spec(n) is Some {
            let m = prune_spec(n)->0;
            lemma_prune_seq_elems(cs, 0);
            lemma_prune_seq_fixed(kept, 0);
            assert(kept.skip(0) =~= kept);
            assert(m.data->Ok_0.children->Ok_0 == kept);
            assert(prune_seq(kept, 0) == kept);
            assert(prune_spec(m) is Some);
            let w = prune_spec(m)->0;
            assert(w.data->Ok_0.children->Ok_0 == kept);
            assert(w.data->Ok_0 =~= m.data->Ok_0);
            assert(w =~= m);
        }
    }
}

/// Every survivor of pruning is itself a fixed point of pruning.
proof fn lemma_prune_seq_elems(cs: Seq<NodeV>, i: int)
    ensures
        forall|j: int| 0 <= j < prune_seq(cs, i).len() ==> prune_spec(
            #[trigger] prune_seq(cs, i)[j],
        ) == Option::Some(prune_seq(cs, i)[j]),
    decreases cs, cs.len() - i, 0int,
{
    if 0 <= i < cs.len() {
        lemma_prune_idempotent(cs[i]);
        lemma_prune_seq_elems(cs, i + 1);
        let rest = prune_seq(cs, i + 1);
        match prune_spec(cs[i]) {
            Option::Some(k) => {
                assert forall|j: int| 0 <= j < prune_seq(cs, i).len() implies prune_spec(
                    #[trigger] prune_seq(cs, i)[j],
                ) == Option::Some(prune_seq(cs, i)[j]) by {
                    if j == 0 {
                        assert(prune_seq(cs, i)[0] == k);
                    } else {
                        assert(prune_seq(cs, i)[j] == rest[j - 1]);
                    }
                }
            },
            Option::None => {},
        }
    }
}

/// Pruning a sequence whose members are all fixed points keeps it unchanged.
proof fn lemma_prune_seq_fixed(s: Seq<NodeV>, i: int)
    requires
        forall|j: int| 0 <= j < s.len() ==> prune_spec(#[trigger] s[j]) == Option::Some(s[j]),
        0 <= i <= s.len(),
    ensures
        prune_seq(s, i) == s.skip(i),
    decreases s.len() - i,
{
    if i < s.len() {
        lemma_prune_seq_fixed(s, i + 1);
        assert(prune_seq(s, i) == seq![s[i]] + s.skip(i + 1));
        assert(seq![s[i]] + s.skip(i + 1) =~= s.skip(i));
    } else {
        assert(s.skip(i) =~= Seq::<NodeV>::empty());
    }
}

} // verus!

verus! {

proof fn lemma_prune_keeps_name(n: NodeV)
    ensures
        prune_spec(n) is Some ==> prune_spec(n)->0.name == n.name,
{
}

/// The survivor at position `k` is the pruning of some original child at
/// or after `i`; hands that child's index back.
proof fn lemma_prune_seq_src_at(cs: Seq<NodeV>, i: int, k: int) -> (j: int)
    requires
        0 <= i,
        0 <= k < prune_seq(cs, i).len(),
    ensures
        i <= j < cs.len(),
        prune_spec(cs[j]) is Some,
        prune_seq(cs, i)[k] == prune_spec(cs[j])->0,
    decreases cs.len() - i,
{
    match prune_spec(cs[i]) {
        Option::Some(k0) => {
            if k == 0 {
                assert(prune_seq(cs, i)[0] == k0);
                i
            } else {
                assert(prune_seq(cs, i)[k] == prune_seq(cs, i + 1)[k - 1]);
                lemma_prune_seq_src_at(cs, i + 1, k - 1)
            }
        },
        Option::None => {
            assert(prune_seq(cs, i) == prune_seq(cs, i + 1));
            lemma_prune_seq_src_at(cs, i + 1, k)
        },
    }
}

proof fn lemma_prune_seq_distinct(cs: Seq<NodeV>, i: int)
    requires
        0 <= i,
        forall|a: int, b: int| 0 <= a < b < cs.len() ==> (#[trigger] cs[a]).name != (
        #[trigger] cs[b]).name,
    ensures
        forall|k1: int, k2: int| 0 <= k1 < k2 < prune_seq(cs, i).len() ==> (#[trigger] prune_seq(
            cs,
            i,
        )[k1]).name != (#[trigger] prune_seq(cs, i)[k2]).name,
    decreases cs.len() - i,
{
    if i < cs.len() {
        lemma_prune_seq_distinct(cs, i + 1);
        assert forall|k1: int, k2: int| 0 <= k1 < k2 < prune_seq(cs, i).len() implies (
        #[trigger] prune_seq(cs, i)[k1]).name != (#[trigger] prune_seq(cs, i)[k2]).name by {
            match prune_spec(cs[i]) {
                Option::Some(k0) => {
                    lemma_prune_keeps_name(cs[i]);
                    if k1 == 0 {
                        assert(prune_seq(cs, i)[0] == k0);
                        assert(prune_seq(cs, i)[k2] == prune_seq(cs, i + 1)[k2 - 1]);
                        let j = lemma_prune_seq_src_at(cs, i + 1, k2 - 1);
                        lemma_prune_keeps_name(cs[j]);
                        assert(prune_seq(cs, i)[k2].name == cs[j].name);
                        assert(cs[i].name != cs[j].name);
                    } else {
                        assert(prune_seq(cs, i)[k1] == prune_seq(cs, i + 1)[k1 - 1]);
                        assert(prune_seq(cs, i)[k2] == prune_seq(cs, i + 1)[k2 - 1]);
                    }
                },
                Option::None => {
                    assert(prune_seq(cs, i) == prune_seq(cs, i + 1));
                },
            }
        }
    }
}

/// Pruning keeps sibling names distinct everywhere in the tree.
pub proof fn lemma_prune_uniq_names(n: NodeV)
    requires
        crate::commands::uniq_names(n),
    ensures
        prune_spec(n) is Some ==> crate::commands::uniq_names(prune_spec(n)->0),
    decreases n, 1int,
{
    if n.data is Ok && n.data->Ok_0.children is Ok {
        let cs = n.data->Ok_0.children->Ok_0;
        if prune_spec(n) is Some {
            let m = prune_spec(n)->0;
            let kept = prune_seq(cs, 0);
            assert(m.data->Ok_0.children->Ok_0 == kept);
            lemma_prune_seq_distinct(cs, 0);
            assert forall|k: int| 0 <= k < kept.len() implies crate::commands::uniq_names(
                #[trigger] kept[k],
            ) by {
                let j = lemma_prune_seq_src_at(cs, 0, k);
                assert(crate::commands::uniq_names(cs[j]));
                lemma_prune_uniq_names(cs[j]);
            }
        }
    }
}

} // verus!

verus! {

/// Pruning keeps every children list in lexicographic name order:
/// survivors stand in their original relative order.
pub proof fn lemma_prune_sorted(n: NodeV)
    requires
        crate::builder::tree_children_sorted(n),
    ensures
        prune_spec(n) is Some ==> crate::builder::tree_children_sorted(prune_spec(n)->0),
    decreases n, 1int,
{
    if n.data is Ok && n.data->Ok_0.children is Ok {
        let cs = n.data->Ok_0.children->Ok_0;
        if prune_spec(n) is Some {
            let m = prune_spec(n)->0;
            let kept = prune_seq(cs, 0);
            assert(m.data->Ok_0.children->Ok_0 == kept);
            lemma_prune_seq_sorted(cs, 0);
            assert forall|k: int| 0 <= k < kept.len() implies
                crate::builder::tree_children_sorted(#[trigger] kept[k]) by {
                let j = lemma_prune_seq_src_at(cs, 0, k);
                assert(crate::builder::tree_children_sorted(cs[j]));
                lemma_prune_sorted(cs[j]);
            }
        }
    }
}

proof fn lemma_prune_seq_sorted(cs: Seq<NodeV>, i: int)
    requires
        0 <= i,
        forall|a: int, b: int| 0 <= a < b < cs.len() ==> crate::builder::lex_le(
            (#[trigger] cs[a]).name,
            (#[trigger] cs[b]).name,
        ),
    ensures
        crate::builder::sorted_by_name(prune_seq(cs, i)),
    decreases cs.len() - i,
{
    if i < cs.len() {
        lemma_prune_seq_sorted(cs, i + 1);
        let rest = prune_seq(cs, i + 1);
        match prune_spec(cs[i]) {
            Option::Some(k0) => {
                lemma_prune_keeps_name(cs[i]);
                assert forall|k1: int, k2: int|
                    0 <= k1 < k2 < prune_seq(cs, i).len() implies crate::builder::lex_le(
                    (#[trigger] prune_seq(cs, i)[k1]).name,
                    (#[trigger] prune_seq(cs, i)[k2]).name,
                ) by {
                    if k1 == 0 {
                        assert(prune_seq(cs, i)[0] == k0);
                        assert(prune_seq(cs, i)[k2] == rest[k2 - 1]);
                        let j = lemma_prune_seq_src_at(cs, i + 1, k2 - 1);
                        lemma_prune_keeps_name(cs[j]);
                        assert(rest[k2 - 1].name == cs[j].name);
                        assert(crate::builder::lex_le(cs[i].name, cs[j].name));
                    } else {
                        assert(prune_seq(cs, i)[k1] == rest[k1 - 1]);
                        assert(prune_seq(cs, i)[k2] == rest[k2 - 1]);
                    }
                }
            },
            Option::None => {
                assert(prune_seq(cs, i) == rest);
            },
        }
    }
}

} // verus!
