//! Tree Builder: turns raw probe results into the override tree.  At each
//! directory the children's (mode, uid, gid) are compared with this node's
//! own resolved values, and only the differences are recorded.  Children are
//! kept in lexicographic order of their raw name bytes so that output is
//! stable across runs.

use vstd::prelude::*;
use crate::tree::{
    Attrs, Node, NodeData, NodeDataV, NodeV, ProbeError, RawNode, RawNodeV,
    node_view, node_views, raw_view, resolved_attrs,
};

verus! {

/// The low twelve bits of a raw permission word: the nine base permission
/// bits together with setuid, setgid and sticky.
pub open spec fn mode_bits(mode: u32) -> u32 {
    mode % 4096
}

pub open spec fn maybe_override_spec(parent: u32, child: u32) -> Option<u32> {
    if parent == child {
        Option::None
    } else {
        Option::Some(child)
    }
}

/// Is this value inherited from the parent or does it need to be
/// explicitly assigned?
pub fn maybe_override(parent: u32, child: u32) -> (r: Option<u32>)
    ensures
        r == maybe_override_spec(parent, child),
{
    if parent == child {
        Option::None
    } else {
        Option::Some(child)
    }
}

/// Lexicographic order over raw name bytes.
pub open spec fn lex_le(a: Seq<u8>, b: Seq<u8>) -> bool
    decreases a.len(),
{
    if a.len() == 0 {
        true
    } else if b.len() == 0 {
        false
    } else if a[0] < b[0] {
        true
    } else if a[0] > b[0] {
        false
    } else {
        lex_le(a.drop_first(), b.drop_first())
    }
}

/// Compares two names in lexicographic byte order.
pub fn name_le(a: &Vec<u8>, b: &Vec<u8>) -> (r: bool)
    ensures
        r == lex_le(a@, b@),
{
    let mut i: usize = 0;
    proof {
        assert(a@.skip(0) =~= a@);
        assert(b@.skip(0) =~= b@);
    }
    while i < a.len() && i < b.len()
        invariant
            i <= a.len(),
            i <= b.len(),
            lex_le(a@, b@) == lex_le(a@.skip(i as int), b@.skip(i as int)),
        decreases a.len() - i,
    {
        if a[i] < b[i] {
            return true;
        }
        if a[i] > b[i] {
            return false;
        }
        proof {
            assert(a@.skip(i as int).drop_first() =~= a@.skip(i as int + 1));
            assert(b@.skip(i as int).drop_first() =~= b@.skip(i as int + 1));
        }
        i += 1;
    }
    proof {
        if i == a.len() {
            assert(a@.skip(i as int).len() == 0);
        } else {
            assert(b@.skip(i as int).len() == 0);
            assert(a@.skip(i as int).len() > 0);
        }
    }
    i == a.len()
}

/// Inserts a node into an already name-sorted sequence, before the first
/// element it does not come strictly after.
pub open spec fn insert_by_name(s: Seq<NodeV>, x: NodeV) -> Seq<NodeV>
    decreases s.len(),
{
    if s.len() == 0 {
        seq![x]
    } else if lex_le(x.name, s[0].name) {
        seq![x] + s
    } else {
        seq![s[0]] + insert_by_name(s.drop_first(), x)
    }
}

/// Insertion sort of a node sequence by name bytes.
pub open spec fn sort_by_name(s: Seq<NodeV>) -> Seq<NodeV>
    decreases s.len(),
{
    if s.len() == 0 {
        Seq::empty()
    } else {
        insert_by_name(sort_by_name(s.drop_last()), s.last())
    }
}

proof fn lemma_insert_at(s: Seq<NodeV>, x: NodeV, j: int)
    requires
        0 <= j <= s.len(),
        forall|k: int| 0 <= k < j ==> !lex_le(x.name, s[k].name),
        j < s.len() ==> lex_le(x.name, s[j].name),
    ensures
        insert_by_name(s, x) == s.subrange(0, j) + seq![x] + s.subrange(j, s.len() as int),
    decreases j,
{
    if j == 0 {
        if s.len() == 0 {
            assert(insert_by_name(s, x) =~= s.subrange(0, 0) + seq![x] + s.subrange(0, 0));
        } else {
            assert(insert_by_name(s, x) =~= s.subrange(0, 0) + seq![x] + s.subrange(0, s.len() as int));
        }
    } else {
        let t = s.drop_first();
        assert forall|k: int| 0 <= k < j - 1 implies !lex_le(x.name, t[k].name) by {
            assert(t[k] == s[k + 1]);
        }
        assert(j - 1 < t.len() ==> lex_le(x.name, t[j - 1].name));
        lemma_insert_at(t, x, j - 1);
        assert(!lex_le(x.name, s[0].name));
        assert(insert_by_name(s, x) == seq![s[0]] + insert_by_name(t, x));
        assert(seq![s[0]] + (t.subrange(0, j - 1) + seq![x] + t.subrange(j - 1, t.len() as int))
            =~= s.subrange(0, j) + seq![x] + s.subrange(j, s.len() as int));
    }
}

/// Inserts a freshly built child into the sorted children list.
fn insert_child(v: &mut Vec<Node>, x: Node)
    ensures
        node_views(final(v)@) == insert_by_name(node_views(old(v)@), node_view(x)),
{
    let ghost s = node_views(v@);
    let ghost xv = node_view(x);
    proof {
        assert(s.len() == v@.len());
    }
    let mut j: usize = 0;
    while j < v.len() && !name_le(&x.name, &v[j].name)
        invariant
            j <= v.len(),
            v@ == old(v)@,
            s == node_views(v@),
            s.len() == v@.len(),
            xv == node_view(x),
            forall|k: int| 0 <= k < j ==> !lex_le(xv.name, s[k].name),
        decreases v.len() - j,
    {
        proof {
            assert(node_views(v@)[j as int] == node_view(v@[j as int]));
            assert(s[j as int].name == v@[j as int].name@);
            assert(xv.name == x.name@);
        }
        j += 1;
    }
    proof {
        if j < v.len() {
            assert(node_views(v@)[j as int] == node_view(v@[j as int]));
            assert(s[j as int].name == v@[j as int].name@);
        }
        lemma_insert_at(s, xv, j as int);
    }
    v.insert(j, x);
    proof {
        assert(node_views(v@) =~= s.subrange(0, j as int) + seq![xv]
            + s.subrange(j as int, s.len() as int));
    }
}

/// Copies a name, byte for byte.
pub fn copy_bytes(v: &Vec<u8>) -> (r: Vec<u8>)
    ensures
        r@ == v@,
{
    let mut r: Vec<u8> = Vec::new();
    let mut i: usize = 0;
    while i < v.len()
        invariant
            i <= v.len(),
            r@ == v@.take(i as int),
        decreases v.len() - i,
    {
        r.push(v[i]);
        proof {
            assert(v@.take(i as int + 1) =~= v@.take(i as int).push(v@[i as int]));
        }
        i += 1;
    }
    proof {
        assert(v@.take(v@.len() as int) =~= v@);
    }
    r
}

/// The models of a sequence of raw nodes.
pub open spec fn raw_views(s: Seq<RawNode>) -> Seq<RawNodeV> {
    Seq::new(s.len(), |i: int| raw_view(s[i]))
}

/// The children built from a raw listing, in listing order, each computed
/// against this directory's resolved attributes.
pub open spec fn build_children(cs: Seq<RawNodeV>, ours: Attrs) -> Seq<NodeV>
    decreases cs, 0int,
{
    Seq::new(
        cs.len(),
        |i: int| if 0 <= i < cs.len() {
            build_spec(cs[i], Option::Some(ours))
        } else {
            arbitrary()
        },
    )
}

/// What `build_tree` returns: the name is kept; a failed probe becomes an
/// error leaf; otherwise each of mode, uid and gid is recorded exactly when
/// it differs from the parent's resolved value (always recorded at the
/// root), and a directory's children are built against this node's own
/// resolved values and sorted by name.
pub open spec fn build_spec(r: RawNodeV, parent: Option<Attrs>) -> NodeV
    decreases r, 1int,
{
    NodeV {
        name: r.name,
        data: match r.probe {
            Result::Err(e) => Result::Err(e),
            Result::Ok(d) => {
                let mode = mode_bits(d.mode);
                Result::Ok(NodeDataV {
                    override_mode: match parent {
                        Option::None => Option::Some(mode),
                        Option::Some(p) => maybe_override_spec(p.mode, mode),
                    },
                    override_uid: match parent {
                        Option::None => Option::Some(d.uid),
                        Option::Some(p) => maybe_override_spec(p.uid, d.uid),
                    },
                    override_gid: match parent {
                        Option::None => Option::Some(d.gid),
                        Option::Some(p) => maybe_override_spec(p.gid, d.gid),
                    },
                    kind: d.kind,
                    children: match d.listing {
                        Result::Err(e) => Result::Err(e),
                        Result::Ok(cs) => Result::Ok(
                            sort_by_name(
                                build_children(
                                    r.probe->Ok_0.listing->Ok_0,
                                    Attrs { mode, uid: d.uid, gid: d.gid },
                                ),
                            ),
                        ),
                    },
                })
            },
        },
    }
}

/// Builds the override tree from raw probe results.  `parent` is `None`
/// only for the root, whose three fields are then all recorded explicitly.
pub fn build_tree(raw: &RawNode, parent: Option<Attrs>) -> (r: Node)
    ensures
        r@ == build_spec(raw@, parent),
    decreases *raw,
{
    match &raw.probe {
        Result::Err(e) => {
            let n = Node { name: copy_bytes(&raw.name), data: Result::Err(*e) };
            proof {
                assert(n@ =~~= build_spec(raw@, parent));
            }
            n
        },
        Result::Ok(d) => {
            let mode = d.mode % 4096;
            let (om, ou, og) = match parent {
                Option::None => (
                    Option::Some(mode),
                    Option::Some(d.uid),
                    Option::Some(d.gid),
                ),
                Option::Some(p) => (
                    maybe_override(p.mode, mode),
                    maybe_override(p.uid, d.uid),
                    maybe_override(p.gid, d.gid),
                ),
            };
            let ours = Attrs { mode, uid: d.uid, gid: d.gid };
            let children: Result<Vec<Node>, ProbeError> = match &d.listing {
                Result::Err(e) => Result::Err(*e),
                Result::Ok(cs) => {
                    let ghost rb = build_children(raw_views(cs@), ours);
                    let mut out: Vec<Node> = Vec::new();
                    let mut i: usize = 0;
                    proof {
                        assert(rb.take(0) =~= Seq::<NodeV>::empty());
                    }
                    while i < cs.len()
                        invariant
                            i <= cs.len(),
                            node_views(out@) == sort_by_name(rb.take(i as int)),
                            rb == build_children(raw_views(cs@), ours),
                            raw.probe is Ok,
                            raw.probe->Ok_0.listing is Ok,
                            cs@ == raw.probe->Ok_0.listing->Ok_0@,
                        decreases cs.len() - i,
                    {
                        proof {
                            assert(cs@[i as int] == raw.probe->Ok_0.listing->Ok_0@[i as int]);
                            assert(decreases_to!(*raw =>
                                raw.probe->Ok_0.listing->Ok_0@[i as int]));
                        }
                        let c = build_tree(&cs[i], Option::Some(ours));
                        proof {
                            assert(raw_views(cs@)[i as int] == raw_view(cs@[i as int]));
                            assert(node_view(c) == rb[i as int]);
                        }
                        insert_child(&mut out, c);
                        proof {
                            assert(rb.take(i as int + 1).drop_last() =~= rb.take(i as int));
                            assert(rb.take(i as int + 1).last() == rb[i as int]);
                        }
                        i += 1;
                    }
                    proof {
                        assert(rb.take(cs@.len() as int) =~= rb);
                        assert(raw@.probe->Ok_0.listing->Ok_0 =~= raw_views(cs@));
                        assert(node_views(out@) == sort_by_name(
                            build_children(
                                raw@.probe->Ok_0.listing->Ok_0,
                                Attrs { mode: d.mode % 4096, uid: d.uid, gid: d.gid },
                            ),
                        ));
                    }
                    Result::Ok(out)
                },
            };
            let n = Node {
                name: copy_bytes(&raw.name),
                data: Result::Ok(NodeData {
                    override_mode: om,
                    override_uid: ou,
                    override_gid: og,
                    kind: d.kind,
                    children,
                }),
            };
            proof {
                let b = build_spec(raw@, parent);
                let bd = b.data->Ok_0;
                let nd = n@.data->Ok_0;
                assert(n@.name == b.name);
                assert(nd.override_mode == bd.override_mode);
                assert(nd.override_uid == bd.override_uid);
                assert(nd.override_gid == bd.override_gid);
                assert(nd.kind == bd.kind);
                if raw@.probe->Ok_0.listing is Ok {
                    assert(nd.children is Ok && bd.children is Ok);
                    assert(nd.children->Ok_0 =~= bd.children->Ok_0);
                    assert(nd.children == bd.children);
                } else {
                    assert(nd.children == bd.children);
                }
                assert(nd =~= bd);
                assert(n@ =~= b);
            }
            n
        },
    }
}

} // verus!

verus! {

/// A default attribute triple used where a node has no parent; a root's
/// fields are all explicit, so the value is never read through.
pub open spec fn inherited_or(parent: Option<Attrs>) -> Attrs {
    match parent {
        Option::Some(p) => p,
        Option::None => Attrs { mode: 0, uid: 0, gid: 0 },
    }
}

/// Override consistency of a whole tree.  At a root every field is
/// explicit.  Below it, a field is recorded only when it differs from the
/// parent's resolved value (and an absent field resolves to the parent's
/// value by definition, so a field is recorded if and only if the node's
/// actual value differs).  Every child's overrides are relative to its own
/// immediate parent's resolved attributes.
pub open spec fn overrides_consistent(n: NodeV, parent: Option<Attrs>) -> bool
    decreases n, 0int,
{
    n.data is Ok ==> {
        let d = n.data->Ok_0;
        &&& (parent is None ==> d.override_mode is Some && d.override_uid is Some
            && d.override_gid is Some)
        &&& (parent is Some ==> {
            &&& (d.override_mode is Some ==> d.override_mode->0 != parent->0.mode)
            &&& (d.override_uid is Some ==> d.override_uid->0 != parent->0.uid)
            &&& (d.override_gid is Some ==> d.override_gid->0 != parent->0.gid)
        })
        &&& (d.children is Ok ==> forall|i: int|
            0 <= i < n.data->Ok_0.children->Ok_0.len() ==> overrides_consistent(
                n.data->Ok_0.children->Ok_0[i],
                Option::Some(resolved_attrs(d, inherited_or(parent))),
            ))
    }
}

proof fn lemma_insert_holds(s: Seq<NodeV>, x: NodeV, p: spec_fn(NodeV) -> bool)
    requires
        forall|i: int| 0 <= i < s.len() ==> p(#[trigger] s[i]),
        p(x),
    ensures
        insert_by_name(s, x).len() == s.len() + 1,
        forall|i: int| 0 <= i < insert_by_name(s, x).len() ==> p(#[trigger] insert_by_name(s, x)[i]),
    decreases s.len(),
{
    if s.len() == 0 {
        assert(insert_by_name(s, x) =~= seq![x]);
    } else if lex_le(x.name, s[0].name) {
        assert forall|i: int| 0 <= i < insert_by_name(s, x).len() implies p(
            #[trigger] insert_by_name(s, x)[i],
        ) by {
            if i == 0 {
                assert(insert_by_name(s, x)[0] == x);
            } else {
                assert(insert_by_name(s, x)[i] == s[i - 1]);
            }
        }
    } else {
        let t = s.drop_first();
        assert forall|i: int| 0 <= i < t.len() implies p(#[trigger] t[i]) by {
            assert(t[i] == s[i + 1]);
        }
        lemma_insert_holds(t, x, p);
        assert forall|i: int| 0 <= i < insert_by_name(s, x).len() implies p(
            #[trigger] insert_by_name(s, x)[i],
        ) by {
            if i == 0 {
                assert(insert_by_name(s, x)[0] == s[0]);
            } else {
                assert(insert_by_name(s, x)[i] == insert_by_name(t, x)[i - 1]);
            }
        }
    }
}

proof fn lemma_sort_holds(s: Seq<NodeV>, p: spec_fn(NodeV) -> bool)
    requires
        forall|i: int| 0 <= i < s.len() ==> p(#[trigger] s[i]),
    ensures
        sort_by_name(s).len() == s.len(),
        forall|i: int| 0 <= i < sort_by_name(s).len() ==> p(#[trigger] sort_by_name(s)[i]),
    decreases s.len(),
{
    if s.len() == 0 {
    } else {
        let t = s.drop_last();
        assert forall|i: int| 0 <= i < t.len() implies p(#[trigger] t[i]) by {
            assert(t[i] == s[i]);
        }
        lemma_sort_holds(t, p);
        assert(p(s.last()));
        lemma_insert_holds(sort_by_name(t), s.last(), p);
    }
}

/// Root explicitness and override correctness: in any tree that
/// `build_tree` returns, the root records all three fields, and every other
/// node records a field exactly when its actual value differs from its
/// immediate parent's resolved value.
pub proof fn lemma_build_consistent(r: RawNodeV, parent: Option<Attrs>)
    ensures
        overrides_consistent(build_spec(r, parent), parent),
    decreases r,
{
    let n = build_spec(r, parent);
    if r.probe is Ok {
        let d = r.probe->Ok_0;
        let ours = Attrs { mode: mode_bits(d.mode), uid: d.uid, gid: d.gid };
        assert(resolved_attrs(n.data->Ok_0, inherited_or(parent)) == ours);
        if d.listing is Ok {
            let rcs = r.probe->Ok_0.listing->Ok_0;
            let built = build_children(rcs, ours);
            let p = |c: NodeV| overrides_consistent(c, Option::Some(ours));
            assert forall|i: int| 0 <= i < built.len() implies p(#[trigger] built[i]) by {
                lemma_build_consistent(r.probe->Ok_0.listing->Ok_0[i], Option::Some(ours));
                assert(built[i] == build_spec(rcs[i], Option::Some(ours)));
            }
            lemma_sort_holds(built, p);
            assert(n.data->Ok_0.children->Ok_0 == sort_by_name(built));
        }
    }
}

} // verus!

verus! {

/// No raw directory listing holds two entries with the same name.
pub open spec fn raw_uniq_names(r: RawNodeV) -> bool
    decreases r, 0int,
{
    (r.probe is Ok && r.probe->Ok_0.listing is Ok) ==> {
        &&& forall|a: int, b: int|
            0 <= a < b < r.probe->Ok_0.listing->Ok_0.len() ==> (#[trigger] r.probe->Ok_0.listing->Ok_0[a]).name != (
            #[trigger] r.probe->Ok_0.listing->Ok_0[b]).name
        &&& forall|i: int|
            0 <= i < r.probe->Ok_0.listing->Ok_0.len() ==> raw_uniq_names(
                #[trigger] r.probe->Ok_0.listing->Ok_0[i],
            )
    }
}

/// Where `insert_by_name` places a node: before the first element it does
/// not come strictly after.
spec fn insert_pos(s: Seq<NodeV>, x: NodeV) -> int
    decreases s.len(),
{
    if s.len() == 0 {
        0
    } else if lex_le(x.name, s[0].name) {
        0
    } else {
        1 + insert_pos(s.drop_first(), x)
    }
}

proof fn lemma_insert_shape(s: Seq<NodeV>, x: NodeV)
    ensures
        0 <= insert_pos(s, x) <= s.len(),
        insert_by_name(s, x) == s.subrange(0, insert_pos(s, x)) + seq![x] + s.subrange(
            insert_pos(s, x),
            s.len() as int,
        ),
    decreases s.len(),
{
    let ip = insert_pos(s, x);
    if s.len() == 0 {
        assert(insert_by_name(s, x) =~= s.subrange(0, 0) + seq![x] + s.subrange(0, 0));
    } else if lex_le(x.name, s[0].name) {
        assert(insert_by_name(s, x) =~= s.subrange(0, 0) + seq![x] + s.subrange(
            0,
            s.len() as int,
        ));
    } else {
        let t = s.drop_first();
        lemma_insert_shape(t, x);
        assert(insert_by_name(s, x) == seq![s[0]] + insert_by_name(t, x));
        assert(seq![s[0]] + (t.subrange(0, ip - 1) + seq![x] + t.subrange(ip - 1, t.len() as int))
            =~= s.subrange(0, ip) + seq![x] + s.subrange(ip, s.len() as int));
    }
}

/// A sorted element is one of the originals; hands its index back.
proof fn lemma_sort_src_at(s: Seq<NodeV>, k: int) -> (j: int)
    requires
        0 <= k < sort_by_name(s).len(),
    ensures
        0 <= j < s.len(),
        sort_by_name(s)[k] == s[j],
    decreases s.len(),
{
    let t = s.drop_last();
    let st = sort_by_name(t);
    let x = s.last();
    lemma_insert_shape(st, x);
    let ip = insert_pos(st, x);
    if k == ip {
        assert(sort_by_name(s)[k] == x);
        s.len() - 1
    } else if k < ip {
        assert(sort_by_name(s)[k] == st[k]);
        let j = lemma_sort_src_at(t, k);
        assert(t[j] == s[j]);
        j
    } else {
        assert(sort_by_name(s)[k] == st[k - 1]);
        let j = lemma_sort_src_at(t, k - 1);
        assert(t[j] == s[j]);
        j
    }
}

/// Sorting keeps pairwise-distinct names pairwise distinct.
proof fn lemma_sort_distinct(s: Seq<NodeV>)
    requires
        forall|a: int, b: int| 0 <= a < b < s.len() ==> (#[trigger] s[a]).name != (
        #[trigger] s[b]).name,
    ensures
        forall|k1: int, k2: int| 0 <= k1 < k2 < sort_by_name(s).len() ==> (#[trigger] sort_by_name(
            s,
        )[k1]).name != (#[trigger] sort_by_name(s)[k2]).name,
    decreases s.len(),
{
    if s.len() > 0 {
        let t = s.drop_last();
        let st = sort_by_name(t);
        let x = s.last();
        assert(forall|a: int, b: int| 0 <= a < b < t.len() ==> (#[trigger] t[a]).name != (
        #[trigger] t[b]).name) by {
            assert(forall|a: int| 0 <= a < t.len() ==> t[a] == s[a]);
        }
        lemma_sort_distinct(t);
        lemma_insert_shape(st, x);
        let ip = insert_pos(st, x);
        assert forall|k: int| 0 <= k < st.len() implies (#[trigger] st[k]).name != x.name by {
            let j = lemma_sort_src_at(t, k);
            assert(t[j] == s[j]);
            assert(s[j].name != s[s.len() - 1].name);
        }
        assert forall|k1: int, k2: int| 0 <= k1 < k2 < sort_by_name(s).len() implies (
        #[trigger] sort_by_name(s)[k1]).name != (#[trigger] sort_by_name(s)[k2]).name by {
            if k1 == ip {
                assert(sort_by_name(s)[k1] == x);
                assert(sort_by_name(s)[k2] == st[k2 - 1]);
            } else if k2 == ip {
                assert(sort_by_name(s)[k2] == x);
                assert(sort_by_name(s)[k1] == st[k1]);
            } else {
                let w1: int = if k1 < ip { k1 } else { k1 - 1 };
                let w2: int = if k2 < ip { k2 } else { k2 - 1 };
                assert(sort_by_name(s)[k1] == st[w1]);
                assert(sort_by_name(s)[k2] == st[w2]);
                assert(w1 < w2);
            }
        }
    }
}

/// Building keeps sibling names distinct everywhere: the tree built from
/// raw listings with distinct names has distinct names itself.
pub proof fn lemma_build_uniq_names(r: RawNodeV, parent: Option<Attrs>)
    requires
        raw_uniq_names(r),
    ensures
        crate::commands::uniq_names(build_spec(r, parent)),
    decreases r,
{
    let n = build_spec(r, parent);
    if r.probe is Ok {
        let d = r.probe->Ok_0;
        let ours = Attrs { mode: mode_bits(d.mode), uid: d.uid, gid: d.gid };
        if d.listing is Ok {
            let rcs = r.probe->Ok_0.listing->Ok_0;
            let built = build_children(rcs, ours);
            assert(forall|i: int| 0 <= i < built.len() ==> (#[trigger] built[i]).name
                == rcs[i].name);
            assert(forall|a: int, b: int| 0 <= a < b < built.len() ==> (#[trigger] built[a]).name
                != (#[trigger] built[b]).name);
            lemma_sort_distinct(built);
            assert(n.data->Ok_0.children->Ok_0 == sort_by_name(built));
            assert forall|k: int| 0 <= k < sort_by_name(built).len() implies
                crate::commands::uniq_names(#[trigger] sort_by_name(built)[k]) by {
                let j = lemma_sort_src_at(built, k);
                assert(built[j] == build_spec(rcs[j], Option::Some(ours)));
                assert(raw_uniq_names(r.probe->Ok_0.listing->Ok_0[j]));
                lemma_build_uniq_names(r.probe->Ok_0.listing->Ok_0[j], Option::Some(ours));
            }
        }
    }
}

} // verus!

verus! {

proof fn lemma_lex_total(a: Seq<u8>, b: Seq<u8>)
    ensures
        lex_le(a, b) || lex_le(b, a),
    decreases a.len(),
{
    if a.len() > 0 && b.len() > 0 && a[0] == b[0] {
        lemma_lex_total(a.drop_first(), b.drop_first());
    }
}

proof fn lemma_lex_trans(a: Seq<u8>, b: Seq<u8>, c: Seq<u8>)
    requires
        lex_le(a, b),
        lex_le(b, c),
    ensures
        lex_le(a, c),
    decreases a.len(),
{
    if a.len() > 0 {
        if a[0] == b[0] && b[0] == c[0] {
            lemma_lex_trans(a.drop_first(), b.drop_first(), c.drop_first());
        }
    }
}

proof fn lemma_insert_pos_found(s: Seq<NodeV>, x: NodeV)
    ensures
        0 <= insert_pos(s, x) <= s.len(),
        forall|k: int| 0 <= k < insert_pos(s, x) ==> !lex_le(x.name, (#[trigger] s[k]).name),
        insert_pos(s, x) < s.len() ==> lex_le(x.name, s[insert_pos(s, x)].name),
    decreases s.len(),
{
    if s.len() > 0 && !lex_le(x.name, s[0].name) {
        let t = s.drop_first();
        lemma_insert_pos_found(t, x);
        assert forall|k: int| 0 <= k < insert_pos(s, x) implies !lex_le(
            x.name,
            (#[trigger] s[k]).name,
        ) by {
            if k > 0 {
                assert(s[k] == t[k - 1]);
            }
        }
    }
}

/// Every earlier element comes no later than every later one, by name.
pub open spec fn sorted_by_name(s: Seq<NodeV>) -> bool {
    forall|a: int, b: int| 0 <= a < b < s.len() ==> lex_le(
        (#[trigger] s[a]).name,
        (#[trigger] s[b]).name,
    )
}

proof fn lemma_insert_sorted(s: Seq<NodeV>, x: NodeV)
    requires
        sorted_by_name(s),
    ensures
        sorted_by_name(insert_by_name(s, x)),
{
    lemma_insert_shape(s, x);
    lemma_insert_pos_found(s, x);
    let ip = insert_pos(s, x);
    let r = insert_by_name(s, x);
    assert forall|k1: int, k2: int| 0 <= k1 < k2 < r.len() implies lex_le(
        (#[trigger] r[k1]).name,
        (#[trigger] r[k2]).name,
    ) by {
        if k1 < ip {
            assert(r[k1] == s[k1]);
            assert(!lex_le(x.name, s[k1].name));
            lemma_lex_total(x.name, s[k1].name);
            if k2 < ip {
                assert(r[k2] == s[k2]);
            } else if k2 == ip {
                assert(r[k2] == x);
            } else {
                assert(r[k2] == s[k2 - 1]);
            }
        } else if k1 == ip {
            assert(r[k1] == x);
            assert(r[k2] == s[k2 - 1]);
            assert(lex_le(x.name, s[ip].name));
            if k2 - 1 > ip {
                lemma_lex_trans(x.name, s[ip].name, s[k2 - 1].name);
            }
        } else {
            assert(r[k1] == s[k1 - 1]);
            assert(r[k2] == s[k2 - 1]);
        }
    }
}

proof fn lemma_sort_sorted(s: Seq<NodeV>)
    ensures
        sorted_by_name(sort_by_name(s)),
    decreases s.len(),
{
    if s.len() > 0 {
        lemma_sort_sorted(s.drop_last());
        lemma_insert_sorted(sort_by_name(s.drop_last()), s.last());
    }
}

/// Every children list in a tree is in lexicographic name order.
pub open spec fn tree_children_sorted(n: NodeV) -> bool
    decreases n, 0int,
{
    (n.data is Ok && n.data->Ok_0.children is Ok) ==> {
        &&& sorted_by_name(n.data->Ok_0.children->Ok_0)
        &&& forall|i: int|
            0 <= i < n.data->Ok_0.children->Ok_0.len() ==> tree_children_sorted(
                #[trigger] n.data->Ok_0.children->Ok_0[i],
            )
    }
}

/// Built trees keep their children in lexicographic name order, so output
/// is stable and diffable across runs.
pub proof fn lemma_build_sorted(r: RawNodeV, parent: Option<Attrs>)
    ensures
        tree_children_sorted(build_spec(r, parent)),
    decreases r,
{
    let n = build_spec(r, parent);
    if r.probe is Ok {
        let d = r.probe->Ok_0;
        let ours = Attrs { mode: mode_bits(d.mode), uid: d.uid, gid: d.gid };
        if d.listing is Ok {
            let rcs = r.probe->Ok_0.listing->Ok_0;
            let built = build_children(rcs, ours);
            lemma_sort_sorted(built);
            assert(n.data->Ok_0.children->Ok_0 == sort_by_name(built));
            assert forall|k: int| 0 <= k < sort_by_name(built).len() implies tree_children_sorted(
                #[trigger] sort_by_name(built)[k],
            ) by {
                let j = lemma_sort_src_at(built, k);
                assert(built[j] == build_spec(rcs[j], Option::Some(ours)));
                lemma_build_sorted(r.probe->Ok_0.listing->Ok_0[j], Option::Some(ours));
            }
        }
    }
}

} // verus!
