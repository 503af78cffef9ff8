//! Command Synthesizer: a minimal, order-correct sequence of recursive
//! ownership and mode change commands that reproduces the observed layout.
//! A command is synthesized as data first — full path plus action — and
//! formatted as a shell line second; paths are hex-escaped byte for byte so
//! that arbitrary filenames survive the shell.

use vstd::prelude::*;
use crate::tree::{Attrs, Node, NodeDataV, NodeV, node_view, resolved_attrs};
use crate::builder::copy_bytes;
use crate::names::NameCache;
use crate::text::{chars_to_string, hex_byte, octal4_str, push_chars, push_hex_byte, push_octal4, str_to_chars};

verus! {

/// What one recursive command changes.
#[derive(Clone, Copy, Debug, PartialEq, Eq, Structural)]
pub enum CmdAct {
    /// `chown -R user:group`
    ChownBoth(u32, u32),
    /// `chown -R user`
    ChownUser(u32),
    /// `chgrp -R group`
    ChownGroup(u32),
    /// `chmod -R 0mode`
    Chmod(u32),
}

/// One recursive command: the addressed path, component by component, and
/// the action.
#[derive(Debug, PartialEq)]
pub struct Cmd {
    pub path: Vec<Vec<u8>>,
    pub act: CmdAct,
}

/// Mathematical model of `Cmd`.
#[verifier::ext_equal]
pub ghost struct CmdV {
    pub path: Seq<Seq<u8>>,
    pub act: CmdAct,
}

/// The models of a path's components.
pub open spec fn path_views(s: Seq<Vec<u8>>) -> Seq<Seq<u8>> {
    Seq::new(s.len(), |i: int| s[i]@)
}

impl View for Cmd {
    type V = CmdV;

    open spec fn view(&self) -> CmdV {
        CmdV { path: path_views(self.path@), act: self.act }
    }
}

/// The models of a command sequence.
pub open spec fn cmd_views(s: Seq<Cmd>) -> Seq<CmdV> {
    Seq::new(s.len(), |i: int| s[i]@)
}

/// The commands emitted for one node standing at `p`: a combined, user-only
/// or group-only recursive ownership change where owners are overridden,
/// then a recursive mode change where the mode is.
pub open spec fn own_cmds(d: NodeDataV, p: Seq<Seq<u8>>) -> Seq<CmdV> {
    (match (d.override_uid, d.override_gid) {
        (Option::Some(u), Option::Some(g)) => seq![CmdV { path: p, act: CmdAct::ChownBoth(u, g) }],
        (Option::Some(u), Option::None) => seq![CmdV { path: p, act: CmdAct::ChownUser(u) }],
        (Option::None, Option::Some(g)) => seq![CmdV { path: p, act: CmdAct::ChownGroup(g) }],
        (Option::None, Option::None) => Seq::empty(),
    }) + (match d.override_mode {
        Option::Some(m) => seq![CmdV { path: p, act: CmdAct::Chmod(m) }],
        Option::None => Seq::empty(),
    })
}

/// The commands of the first `i` children, in order.
pub open spec fn cmds_children(cs: Seq<NodeV>, p: Seq<Seq<u8>>, i: int) -> Seq<CmdV>
    decreases cs, i,
{
    if i <= 0 || i > cs.len() {
        Seq::empty()
    } else {
        cmds_children(cs, p, i - 1) + cmds_tree(cs[i - 1], p)
    }
}

/// The commands of a whole subtree, in preorder: a node's own commands
/// before any command for anything inside it.  A node whose probe failed
/// gets no commands.
pub open spec fn cmds_tree(n: NodeV, prefix: Seq<Seq<u8>>) -> Seq<CmdV>
    decreases n, 0int,
{
    if n.data is Err {
        Seq::empty()
    } else {
        let p = prefix.push(n.name);
        own_cmds(n.data->Ok_0, p) + (if n.data->Ok_0.children is Ok {
            cmds_children(
                n.data->Ok_0.children->Ok_0,
                p,
                n.data->Ok_0.children->Ok_0.len() as int,
            )
        } else {
            Seq::empty()
        })
    }
}

/// Copies a path, component by component.
fn copy_path(v: &Vec<Vec<u8>>) -> (r: Vec<Vec<u8>>)
    ensures
        path_views(r@) == path_views(v@),
{
    let mut r: Vec<Vec<u8>> = Vec::new();
    let mut i: usize = 0;
    proof {
        assert(path_views(r@) =~= path_views(v@).take(0));
    }
    while i < v.len()
        invariant
            i <= v.len(),
            path_views(r@) == path_views(v@).take(i as int),
        decreases v.len() - i,
    {
        let c = copy_bytes(&v[i]);
        proof {
            assert(c@ == v@[i as int]@);
        }
        let ghost r0 = r@;
        r.push(c);
        proof {
            assert(path_views(r0).len() == r0.len());
            assert(r0.len() == i as int);
            assert(r@ == r0.push(c));
            let rv = path_views(r@);
            let tv = path_views(v@).take(i as int + 1);
            assert(rv.len() == tv.len());
            assert forall|k: int| 0 <= k < rv.len() implies rv[k] == tv[k] by {
                assert(rv[k] == r@[k]@);
                assert(tv[k] == v@[k]@);
                if k < i as int {
                    assert(r@[k] == r0[k]);
                    assert(path_views(r0)[k] == r0[k]@);
                    assert(path_views(v@).take(i as int)[k] == v@[k]@);
                } else {
                    assert(r@[k] == c);
                }
            }
            assert(rv =~= tv);
        }
        i += 1;
    }
    proof {
        assert(path_views(v@).take(v@.len() as int) =~= path_views(v@));
    }
    r
}

fn synth_rec(node: &Node, path: &mut Vec<Vec<u8>>, out: &mut Vec<Cmd>)
    ensures
        final(path)@ == old(path)@,
        cmd_views(final(out)@) == cmd_views(old(out)@) + cmds_tree(
            node_view(*node),
            path_views(old(path)@),
        ),
    decreases *node,
{
    let ghost nv = node_view(*node);
    let ghost p0 = path_views(path@);
    let ghost base = cmd_views(out@);
    path.push(copy_bytes(&node.name));
    let ghost p1 = path@;
    let ghost p = p0.push(nv.name);
    proof {
        assert(path_views(path@) =~= p);
    }
    match &node.data {
        Result::Err(_) => {
            proof {
                assert(cmds_tree(nv, p0) =~= Seq::<CmdV>::empty());
                assert(cmd_views(out@) =~= base + cmds_tree(nv, p0));
            }
        },
        Result::Ok(d) => {
            match (d.override_uid, d.override_gid) {
                (Option::Some(u), Option::Some(g)) => {
                    out.push(Cmd { path: copy_path(path), act: CmdAct::ChownBoth(u, g) });
                },
                (Option::Some(u), Option::None) => {
                    out.push(Cmd { path: copy_path(path), act: CmdAct::ChownUser(u) });
                },
                (Option::None, Option::Some(g)) => {
                    out.push(Cmd { path: copy_path(path), act: CmdAct::ChownGroup(g) });
                },
                (Option::None, Option::None) => {},
            }
            match d.override_mode {
                Option::Some(m) => {
                    out.push(Cmd { path: copy_path(path), act: CmdAct::Chmod(m) });
                },
                Option::None => {},
            }
            proof {
                assert(cmd_views(out@) =~= base + own_cmds(nv.data->Ok_0, p));
            }
            match &d.children {
                Result::Err(_) => {
                    proof {
                        assert(base + own_cmds(nv.data->Ok_0, p) =~= base + cmds_tree(nv, p0));
                    }
                },
                Result::Ok(cs) => {
                    let ghost csv = nv.data->Ok_0.children->Ok_0;
                    proof {
                        assert(csv.len() == cs@.len());
                        assert(forall|k: int| 0 <= k < cs@.len() ==> csv[k] == node_view(
                            #[trigger] cs@[k],
                        ));
                    }
                    let mut i: usize = 0;
                    while i < cs.len()
                        invariant
                            i <= cs.len(),
                            node.data is Ok,
                            node.data->Ok_0.children is Ok,
                            node.data->Ok_0.children->Ok_0@ == cs@,
                            nv == node_view(*node),
                            csv == nv.data->Ok_0.children->Ok_0,
                            csv.len() == cs@.len(),
                            forall|k: int| 0 <= k < cs@.len() ==> csv[k] == node_view(
                                #[trigger] cs@[k],
                            ),
                            path@ == p1,
                            path_views(path@) == p,
                            path@.len() > 0,
                            cmd_views(out@) == base + own_cmds(nv.data->Ok_0, p)
                                + cmds_children(csv, p, i as int),
                        decreases cs.len() - i,
                    {
                        proof {
                            assert(decreases_to!(*node =>
                                node.data->Ok_0.children->Ok_0@[i as int]));
                        }
                        synth_rec(&cs[i], path, out);
                        proof {
                            assert(cmd_views(out@) =~= base + own_cmds(nv.data->Ok_0, p)
                                + (cmds_children(csv, p, i as int) + cmds_tree(
                                csv[i as int],
                                p,
                            )));
                        }
                        i += 1;
                    }
                    proof {
                        assert(base + own_cmds(nv.data->Ok_0, p) + cmds_children(
                            csv,
                            p,
                            csv.len() as int,
                        ) =~= base + cmds_tree(nv, p0));
                    }
                },
            }
        },
    }
    path.pop();
    proof {
        assert(p1 == old(path)@.push(p1.last()));
        assert(path@ =~= old(path)@);
    }
}

/// The command sequence that reproduces a tree, in preorder.
pub fn synthesize_commands(root: &Node) -> (r: Vec<Cmd>)
    ensures
        cmd_views(r@) == cmds_tree(node_view(*root), Seq::empty()),
{
    let mut path: Vec<Vec<u8>> = Vec::new();
    let mut out: Vec<Cmd> = Vec::new();
    proof {
        assert(cmd_views(out@) =~= Seq::<CmdV>::empty());
        assert(path_views(path@) =~= Seq::<Seq<u8>>::empty());
    }
    synth_rec(root, &mut path, &mut out);
    proof {
        assert(Seq::<CmdV>::empty() + cmds_tree(node_view(*root), Seq::empty()) =~= cmds_tree(
            node_view(*root),
            Seq::empty(),
        ));
        assert(cmd_views(out@) =~= cmds_tree(node_view(*root), Seq::empty()));
    }
    out
}

} // verus!

verus! {

/// The hex escapes of the first `i` bytes of one path component.
pub open spec fn hex_name(part: Seq<u8>, i: int) -> Seq<char>
    decreases i,
{
    if i <= 0 || i > part.len() {
        Seq::empty()
    } else {
        hex_name(part, i - 1) + "\\x"@ + hex_byte(part[i - 1])
    }
}

/// The first `i` path components, hex escaped and joined by `/`.
pub open spec fn path_enc(path: Seq<Seq<u8>>, i: int) -> Seq<char>
    decreases i,
{
    if i <= 0 || i > path.len() {
        Seq::empty()
    } else {
        path_enc(path, i - 1) + (if i > 1 {
            seq!['/']
        } else {
            Seq::empty()
        }) + hex_name(path[i - 1], path[i - 1].len() as int)
    }
}

/// A path as one opaque shell word: a `printf` substitution that decodes
/// the hex escapes, so that arbitrary name bytes survive the shell.
pub open spec fn bash_path(path: Seq<Seq<u8>>) -> Seq<char> {
    "\"$(printf \""@ + path_enc(path, path.len() as int) + "\")\""@
}

/// Printing characters is hard.  Encode everything in hex for now.
pub fn bash_encode(path: &Vec<Vec<u8>>) -> (r: String)
    ensures
        r@ == bash_path(path_views(path@)),
{
    let ghost pv = path_views(path@);
    let mut out: Vec<char> = Vec::new();
    let open_lit = str_to_chars("\"$(printf \"");
    push_chars(&mut out, &open_lit);
    let ghost head = "\"$(printf \""@;
    proof {
        assert(out@ =~= head + path_enc(pv, 0));
    }
    let mut i: usize = 0;
    while i < path.len()
        invariant
            i <= path.len(),
            pv == path_views(path@),
            pv.len() == path@.len(),
            head == "\"$(printf \""@,
            out@ == head + path_enc(pv, i as int),
        decreases path.len() - i,
    {
        if i > 0 {
            out.push('/');
        }
        let part = &path[i];
        proof {
            assert(pv[i as int] == part@);
        }
        let ghost mid = out@;
        let mut j: usize = 0;
        while j < part.len()
            invariant
                j <= part.len(),
                pv[i as int] == part@,
                out@ == mid + hex_name(part@, j as int),
            decreases part.len() - j,
        {
            let esc = str_to_chars("\\x");
            push_chars(&mut out, &esc);
            push_hex_byte(&mut out, part[j]);
            proof {
                assert(out@ =~= mid + hex_name(part@, j as int + 1));
            }
            j += 1;
        }
        proof {
            assert(out@ =~= head + path_enc(pv, i as int + 1));
        }
        i += 1;
    }
    let close_lit = str_to_chars("\")\"");
    push_chars(&mut out, &close_lit);
    proof {
        assert(out@ =~= bash_path(pv));
    }
    chars_to_string(&out)
}

/// The ids one command displays are in the cache maps.
pub open spec fn cmd_ids_cached(
    c: CmdV,
    umap: Map<u32, Seq<char>>,
    gmap: Map<u32, Seq<char>>,
) -> bool {
    match c.act {
        CmdAct::ChownBoth(u, g) => umap.contains_key(u) && gmap.contains_key(g),
        CmdAct::ChownUser(u) => umap.contains_key(u),
        CmdAct::ChownGroup(g) => gmap.contains_key(g),
        CmdAct::Chmod(_) => true,
    }
}

/// The shell line for one command, under the cache's name maps.  A mode is
/// written with a leading extra zero so the change also clears setuid and
/// setgid bits on directories.
pub open spec fn fmt_cmd(c: CmdV, umap: Map<u32, Seq<char>>, gmap: Map<u32, Seq<char>>) -> Seq<
    char,
> {
    match c.act {
        CmdAct::ChownBoth(u, g) => "chown -R "@ + umap[u] + seq![':'] + gmap[g] + seq![' ']
            + bash_path(c.path),
        CmdAct::ChownUser(u) => "chown -R "@ + umap[u] + seq![' '] + bash_path(c.path),
        CmdAct::ChownGroup(g) => "chgrp -R "@ + gmap[g] + seq![' '] + bash_path(c.path),
        CmdAct::Chmod(m) => "chmod -R 0"@ + octal4_str(m) + seq![' '] + bash_path(c.path),
    }
}

/// The first `i` command lines.
pub open spec fn lines_upto(
    cmds: Seq<CmdV>,
    umap: Map<u32, Seq<char>>,
    gmap: Map<u32, Seq<char>>,
    i: int,
) -> Seq<Seq<char>>
    decreases i,
{
    if i <= 0 || i > cmds.len() {
        Seq::empty()
    } else {
        lines_upto(cmds, umap, gmap, i - 1).push(fmt_cmd(cmds[i - 1], umap, gmap))
    }
}

/// All the command lines for a command sequence, in order.
pub open spec fn command_lines_spec(
    cmds: Seq<CmdV>,
    umap: Map<u32, Seq<char>>,
    gmap: Map<u32, Seq<char>>,
) -> Seq<Seq<char>> {
    lines_upto(cmds, umap, gmap, cmds.len() as int)
}

/// The models of a sequence of strings.
pub open spec fn str_views(s: Seq<String>) -> Seq<Seq<char>> {
    Seq::new(s.len(), |i: int| s[i]@)
}

/// Lines already formatted do not change when the cache learns new ids.
proof fn lemma_lines_stable(
    cmds: Seq<CmdV>,
    u1: Map<u32, Seq<char>>,
    g1: Map<u32, Seq<char>>,
    u2: Map<u32, Seq<char>>,
    g2: Map<u32, Seq<char>>,
    i: int,
)
    requires
        0 <= i <= cmds.len(),
        forall|k: u32| #[trigger] u1.contains_key(k) ==> u2.contains_key(k) && u2[k] == u1[k],
        forall|k: u32| #[trigger] g1.contains_key(k) ==> g2.contains_key(k) && g2[k] == g1[k],
        forall|j: int| 0 <= j < i ==> cmd_ids_cached(#[trigger] cmds[j], u1, g1),
    ensures
        lines_upto(cmds, u2, g2, i) == lines_upto(cmds, u1, g1, i),
    decreases i,
{
    if i > 0 {
        lemma_lines_stable(cmds, u1, g1, u2, g2, i - 1);
        assert(cmd_ids_cached(cmds[i - 1], u1, g1));
        assert(fmt_cmd(cmds[i - 1], u2, g2) == fmt_cmd(cmds[i - 1], u1, g1));
    }
}

/// Formats one command as its shell line, resolving ids through the cache.
pub fn format_command(cmd: &Cmd, cache: &mut NameCache) -> (r: String)
    requires
        old(cache).wf(),
    ensures
        final(cache).wf(),
        forall|k: u32| #[trigger] old(cache).umap().contains_key(k)
            ==> final(cache).umap().contains_key(k)
            && final(cache).umap()[k] == old(cache).umap()[k],
        forall|k: u32| #[trigger] old(cache).gmap().contains_key(k)
            ==> final(cache).gmap().contains_key(k)
            && final(cache).gmap()[k] == old(cache).gmap()[k],
        cmd_ids_cached(cmd@, final(cache).umap(), final(cache).gmap()),
        r@ == fmt_cmd(cmd@, final(cache).umap(), final(cache).gmap()),
{
    let mut out: Vec<char> = Vec::new();
    let encoded = bash_encode(&cmd.path);
    let encoded_chars = str_to_chars(encoded.as_str());
    match cmd.act {
        CmdAct::ChownBoth(u, g) => {
            let lit = str_to_chars("chown -R ");
            push_chars(&mut out, &lit);
            let uname = cache.resolve_uid(u);
            push_chars(&mut out, &uname);
            out.push(':');
            let gname = cache.resolve_gid(g);
            push_chars(&mut out, &gname);
            out.push(' ');
            push_chars(&mut out, &encoded_chars);
            proof {
                assert(out@ =~= fmt_cmd(cmd@, cache.umap(), cache.gmap()));
            }
        },
        CmdAct::ChownUser(u) => {
            let lit = str_to_chars("chown -R ");
            push_chars(&mut out, &lit);
            let uname = cache.resolve_uid(u);
            push_chars(&mut out, &uname);
            out.push(' ');
            push_chars(&mut out, &encoded_chars);
            proof {
                assert(out@ =~= fmt_cmd(cmd@, cache.umap(), cache.gmap()));
            }
        },
        CmdAct::ChownGroup(g) => {
            let lit = str_to_chars("chgrp -R ");
            push_chars(&mut out, &lit);
            let gname = cache.resolve_gid(g);
            push_chars(&mut out, &gname);
            out.push(' ');
            push_chars(&mut out, &encoded_chars);
            proof {
                assert(out@ =~= fmt_cmd(cmd@, cache.umap(), cache.gmap()));
            }
        },
        CmdAct::Chmod(m) => {
            let lit = str_to_chars("chmod -R 0");
            push_chars(&mut out, &lit);
            push_octal4(&mut out, m);
            out.push(' ');
            push_chars(&mut out, &encoded_chars);
            proof {
                assert(out@ =~= fmt_cmd(cmd@, cache.umap(), cache.gmap()));
            }
        },
    }
    chars_to_string(&out)
}

/// What commands are needed to reproduce this tree of permissions?  One
/// shell line per synthesized command, in preorder.
pub fn display_commands(root: &Node, cache: &mut NameCache) -> (r: Vec<String>)
    requires
        old(cache).wf(),
    ensures
        final(cache).wf(),
        forall|k: u32| #[trigger] old(cache).umap().contains_key(k)
            ==> final(cache).umap().contains_key(k)
            && final(cache).umap()[k] == old(cache).umap()[k],
        forall|k: u32| #[trigger] old(cache).gmap().contains_key(k)
            ==> final(cache).gmap().contains_key(k)
            && final(cache).gmap()[k] == old(cache).gmap()[k],
        forall|j: int| 0 <= j < cmds_tree(node_view(*root), Seq::empty()).len()
            ==> cmd_ids_cached(
            #[trigger] cmds_tree(node_view(*root), Seq::empty())[j],
            final(cache).umap(),
            final(cache).gmap(),
        ),
        str_views(r@) == command_lines_spec(
            cmds_tree(node_view(*root), Seq::empty()),
            final(cache).umap(),
            final(cache).gmap(),
        ),
{
    let cmds = synthesize_commands(root);
    let ghost cv = cmd_views(cmds@);
    let mut r: Vec<String> = Vec::new();
    let mut i: usize = 0;
    proof {
        assert(str_views(r@) =~= lines_upto(cv, cache.umap(), cache.gmap(), 0));
    }
    while i < cmds.len()
        invariant
            i <= cmds.len(),
            cv == cmd_views(cmds@),
            cv == cmds_tree(node_view(*root), Seq::empty()),
            cv.len() == cmds@.len(),
            cache.wf(),
            forall|k: u32| #[trigger] old(cache).umap().contains_key(k)
                ==> cache.umap().contains_key(k) && cache.umap()[k] == old(cache).umap()[k],
            forall|k: u32| #[trigger] old(cache).gmap().contains_key(k)
                ==> cache.gmap().contains_key(k) && cache.gmap()[k] == old(cache).gmap()[k],
            forall|j: int| 0 <= j < i ==> cmd_ids_cached(
                #[trigger] cv[j],
                cache.umap(),
                cache.gmap(),
            ),
            str_views(r@) == lines_upto(cv, cache.umap(), cache.gmap(), i as int),
        decreases cmds.len() - i,
    {
        let ghost u0 = cache.umap();
        let ghost g0 = cache.gmap();
        proof {
            assert(cv[i as int] == cmds@[i as int]@);
        }
        let line = format_command(&cmds[i], cache);
        r.push(line);
        proof {
            lemma_lines_stable(cv, u0, g0, cache.umap(), cache.gmap(), i as int);
            assert(str_views(r@) =~= lines_upto(cv, cache.umap(), cache.gmap(), i as int + 1));
        }
        i += 1;
    }
    r
}

} // verus!

verus! {

/// An index path into a tree: at each step, the index of a listed child.
pub open spec fn valid_path(n: NodeV, q: Seq<int>) -> bool
    decreases q.len(),
{
    q.len() > 0 ==> {
        &&& n.data is Ok
        &&& n.data->Ok_0.children is Ok
        &&& 0 <= q[0] < n.data->Ok_0.children->Ok_0.len()
        &&& valid_path(n.data->Ok_0.children->Ok_0[q[0]], q.drop_first())
    }
}

/// The node an index path leads to.
pub open spec fn node_at(n: NodeV, q: Seq<int>) -> NodeV
    decreases q.len(),
{
    if q.len() == 0 {
        n
    } else {
        node_at(n.data->Ok_0.children->Ok_0[q[0]], q.drop_first())
    }
}

/// The path prefix handed to the node an index path leads to, when the
/// commands of the whole tree are synthesized below `prefix`.
pub open spec fn path_at(n: NodeV, prefix: Seq<Seq<u8>>, q: Seq<int>) -> Seq<Seq<u8>>
    decreases q.len(),
{
    if q.len() == 0 {
        prefix
    } else {
        path_at(n.data->Ok_0.children->Ok_0[q[0]], prefix.push(n.name), q.drop_first())
    }
}

/// Earlier children's commands are a prefix of later children blocks.
proof fn lemma_children_prefix(cs: Seq<NodeV>, p: Seq<Seq<u8>>, i: int, j: int)
    requires
        0 <= j <= i <= cs.len(),
    ensures
        cmds_children(cs, p, j).len() <= cmds_children(cs, p, i).len(),
        cmds_children(cs, p, i).subrange(0, cmds_children(cs, p, j).len() as int)
            == cmds_children(cs, p, j),
    decreases i,
{
    if i > j {
        lemma_children_prefix(cs, p, i - 1, j);
        let a = cmds_children(cs, p, i - 1);
        let b = cmds_tree(cs[i - 1], p);
        let l = cmds_children(cs, p, j).len() as int;
        assert((a + b).subrange(0, l) =~= a.subrange(0, l));
    } else {
        assert(cmds_children(cs, p, i).subrange(0, cmds_children(cs, p, j).len() as int)
            =~= cmds_children(cs, p, j));
    }
}

/// Order invariant: for any node and any descendant of it, the descendant's
/// command block stands contiguously in the node's command sequence, at or
/// after the end of the node's own commands.  So a directory's recursive
/// commands are always emitted before any command for anything inside it.
pub proof fn lemma_command_order(n: NodeV, prefix: Seq<Seq<u8>>, q: Seq<int>)
    requires
        n.data is Ok,
        valid_path(n, q),
        q.len() > 0,
    ensures
        exists|k: int|
            own_cmds(n.data->Ok_0, prefix.push(n.name)).len() <= k && k + cmds_tree(
                node_at(n, q),
                path_at(n, prefix, q),
            ).len() <= cmds_tree(n, prefix).len() && #[trigger] cmds_tree(n, prefix).subrange(
                k,
                k + cmds_tree(node_at(n, q), path_at(n, prefix, q)).len() as int,
            ) == cmds_tree(node_at(n, q), path_at(n, prefix, q)),
    decreases q.len(),
{
    let p = prefix.push(n.name);
    let cs = n.data->Ok_0.children->Ok_0;
    let j = q[0];
    let all = cmds_tree(n, prefix);
    let own = own_cmds(n.data->Ok_0, p);
    let blocks = cmds_children(cs, p, cs.len() as int);
    let sub_j = cmds_tree(cs[j], p);
    assert(all == own + blocks);
    lemma_children_prefix(cs, p, cs.len() as int, j + 1);
    lemma_children_prefix(cs, p, j + 1, j);
    let k0 = own.len() + cmds_children(cs, p, j).len();
    assert(cmds_children(cs, p, j + 1) == cmds_children(cs, p, j) + sub_j);
    assert(blocks.subrange(
        cmds_children(cs, p, j).len() as int,
        cmds_children(cs, p, j + 1).len() as int,
    ) =~= sub_j) by {
        let l1 = cmds_children(cs, p, j).len() as int;
        let l2 = cmds_children(cs, p, j + 1).len() as int;
        assert(blocks.subrange(0, l2) == cmds_children(cs, p, j + 1));
        assert forall|t: int| 0 <= t < l2 - l1 implies blocks.subrange(l1, l2)[t] == sub_j[t] by {
            assert(blocks.subrange(0, l2)[l1 + t] == cmds_children(cs, p, j + 1)[l1 + t]);
        }
    }
    assert(all.subrange(k0 as int, k0 + sub_j.len() as int) =~= sub_j) by {
        assert forall|t: int| 0 <= t < sub_j.len() implies all.subrange(
            k0 as int,
            k0 + sub_j.len() as int,
        )[t] == sub_j[t] by {
            assert(all[own.len() + cmds_children(cs, p, j).len() + t] == blocks[cmds_children(
                cs,
                p,
                j,
            ).len() + t]);
            assert(blocks.subrange(
                cmds_children(cs, p, j).len() as int,
                cmds_children(cs, p, j + 1).len() as int,
            )[t] == sub_j[t]);
        }
    }
    if q.len() == 1 {
        assert(q.drop_first().len() == 0);
        assert(node_at(cs[j], q.drop_first()) == cs[j]);
        assert(path_at(cs[j], p, q.drop_first()) == p);
        assert(node_at(n, q) == cs[j] && path_at(n, prefix, q) == p);
        let k = k0 as int;
        assert(own.len() <= k && k + cmds_tree(node_at(n, q), path_at(n, prefix, q)).len()
            <= all.len() && all.subrange(
            k,
            k + cmds_tree(node_at(n, q), path_at(n, prefix, q)).len() as int,
        ) == cmds_tree(node_at(n, q), path_at(n, prefix, q)));
    } else {
        let q1 = q.drop_first();
        assert(valid_path(cs[j], q1) && q1.len() > 0);
        assert(cs[j].data is Ok);
        lemma_command_order(cs[j], p, q1);
        let sub = cmds_tree(node_at(cs[j], q1), path_at(cs[j], p, q1));
        let k1 = choose|k1: int|
            own_cmds(cs[j].data->Ok_0, p.push(cs[j].name)).len() <= k1 && k1 + sub.len()
                <= sub_j.len() && #[trigger] sub_j.subrange(k1, k1 + sub.len() as int) == sub;
        assert(node_at(n, q) == node_at(cs[j], q1));
        assert(path_at(n, prefix, q) == path_at(cs[j], p, q1));
        let k = k0 + k1;
        assert(all.subrange(k as int, k + sub.len() as int) =~= sub) by {
            assert forall|t: int| 0 <= t < sub.len() implies all.subrange(
                k as int,
                k + sub.len() as int,
            )[t] == sub[t] by {
                assert(all.subrange(k0 as int, k0 + sub_j.len() as int)[k1 + t] == sub_j[k1 + t]);
                assert(sub_j.subrange(k1, k1 + sub.len() as int)[t] == sub[t]);
            }
        }
        assert(own.len() <= k && k + sub.len() <= all.len() && all.subrange(
            k as int,
            k + sub.len() as int,
        ) == sub);
    }
}

} // verus!

verus! {

/// One path stands at or above another: component-wise prefix.
pub open spec fn is_path_prefix(p: Seq<Seq<u8>>, q: Seq<Seq<u8>>) -> bool {
    p.len() <= q.len() && p == q.subrange(0, p.len() as int)
}

/// What one recursive command does to the attributes of an entry it covers.
pub open spec fn apply_act(a: Attrs, act: CmdAct) -> Attrs {
    match act {
        CmdAct::ChownBoth(u, g) => Attrs { mode: a.mode, uid: u, gid: g },
        CmdAct::ChownUser(u) => Attrs { mode: a.mode, uid: u, gid: a.gid },
        CmdAct::ChownGroup(g) => Attrs { mode: a.mode, uid: a.uid, gid: g },
        CmdAct::Chmod(m) => Attrs { mode: m, uid: a.uid, gid: a.gid },
    }
}

/// The attributes of the entry at `target` after one command: changed when
/// the command's path covers the target (the command is recursive), and
/// untouched otherwise.
pub open spec fn apply_cmd(a: Attrs, target: Seq<Seq<u8>>, c: CmdV) -> Attrs {
    if is_path_prefix(c.path, target) {
        apply_act(a, c.act)
    } else {
        a
    }
}

/// The attributes of the entry at `target` after executing the commands
/// from index `i` on, in order.
pub open spec fn apply_cmds(a: Attrs, target: Seq<Seq<u8>>, cmds: Seq<CmdV>, i: int) -> Attrs
    decreases cmds.len() - i,
{
    if i < 0 || i >= cmds.len() {
        a
    } else {
        apply_cmds(apply_cmd(a, target, cmds[i]), target, cmds, i + 1)
    }
}

/// No directory entry shares a name with a sibling.
pub open spec fn uniq_names(n: NodeV) -> bool
    decreases n, 0int,
{
    (n.data is Ok && n.data->Ok_0.children is Ok) ==> {
        &&& forall|i: int, j: int|
            0 <= i < j < n.data->Ok_0.children->Ok_0.len()
                ==> (#[trigger] n.data->Ok_0.children->Ok_0[i]).name != (
            #[trigger] n.data->Ok_0.children->Ok_0[j]).name
        &&& forall|i: int|
            0 <= i < n.data->Ok_0.children->Ok_0.len() ==> uniq_names(
                #[trigger] n.data->Ok_0.children->Ok_0[i],
            )
    }
}

/// The effective (inherited-resolved) attributes of the node an index path
/// leads to, given the attributes inherited by the subtree root.
pub open spec fn resolved_at(n: NodeV, q: Seq<int>, inh: Attrs) -> Attrs
    decreases q.len(),
{
    let mine = resolved_attrs(n.data->Ok_0, inh);
    if q.len() == 0 {
        mine
    } else {
        resolved_at(n.data->Ok_0.children->Ok_0[q[0]], q.drop_first(), mine)
    }
}

proof fn lemma_apply_shift(a: Attrs, t: Seq<Seq<u8>>, s1: Seq<CmdV>, s2: Seq<CmdV>, k: int)
    requires
        0 <= k <= s2.len(),
    ensures
        apply_cmds(a, t, s1 + s2, s1.len() + k) == apply_cmds(a, t, s2, k),
    decreases s2.len() - k,
{
    if k < s2.len() {
        assert((s1 + s2)[s1.len() + k] == s2[k]);
        lemma_apply_shift(apply_cmd(a, t, s2[k]), t, s1, s2, k + 1);
    }
}

proof fn lemma_apply_split(a: Attrs, t: Seq<Seq<u8>>, s1: Seq<CmdV>, s2: Seq<CmdV>, i: int)
    requires
        0 <= i <= s1.len(),
    ensures
        apply_cmds(a, t, s1 + s2, i) == apply_cmds(apply_cmds(a, t, s1, i), t, s2, 0),
    decreases s1.len() - i,
{
    if i < s1.len() {
        assert((s1 + s2)[i] == s1[i]);
        lemma_apply_split(apply_cmd(a, t, s1[i]), t, s1, s2, i + 1);
    } else {
        lemma_apply_shift(a, t, s1, s2, 0);
    }
}

proof fn lemma_apply_none(a: Attrs, t: Seq<Seq<u8>>, cmds: Seq<CmdV>, i: int)
    requires
        forall|j: int| i <= j < cmds.len() ==> !is_path_prefix((#[trigger] cmds[j]).path, t),
    ensures
        apply_cmds(a, t, cmds, i) == a,
    decreases cmds.len() - i,
{
    if 0 <= i < cmds.len() {
        lemma_apply_none(a, t, cmds, i + 1);
    }
}

proof fn lemma_prefix_trans(a: Seq<Seq<u8>>, b: Seq<Seq<u8>>, c: Seq<Seq<u8>>)
    requires
        is_path_prefix(a, b),
        is_path_prefix(b, c),
    ensures
        is_path_prefix(a, c),
{
    assert forall|i: int| 0 <= i < a.len() implies a[i] == c.subrange(0, a.len() as int)[i] by {
        assert(a[i] == b.subrange(0, a.len() as int)[i]);
        assert(b[i] == c.subrange(0, b.len() as int)[i]);
    }
    assert(a =~= c.subrange(0, a.len() as int));
}

/// Every command synthesized below a node addresses that node or
/// something inside it.
proof fn lemma_cmds_paths(n: NodeV, prefix: Seq<Seq<u8>>)
    ensures
        forall|j: int| 0 <= j < cmds_tree(n, prefix).len() ==> is_path_prefix(
            prefix.push(n.name),
            (#[trigger] cmds_tree(n, prefix)[j]).path,
        ),
    decreases n, 1int,
{
    if n.data is Ok {
        let p = prefix.push(n.name);
        let own = own_cmds(n.data->Ok_0, p);
        assert(forall|j: int| 0 <= j < own.len() ==> (#[trigger] own[j]).path == p);
        assert(is_path_prefix(p, p)) by {
            assert(p =~= p.subrange(0, p.len() as int));
        }
        if n.data->Ok_0.children is Ok {
            let cs = n.data->Ok_0.children->Ok_0;
            lemma_cmds_paths_children(cs, p, cs.len() as int);
            let all = cmds_tree(n, prefix);
            let blocks = cmds_children(cs, p, cs.len() as int);
            assert forall|j: int| 0 <= j < all.len() implies is_path_prefix(
                p,
                (#[trigger] all[j]).path,
            ) by {
                if j < own.len() {
                    assert(all[j] == own[j]);
                } else {
                    assert(all[j] == blocks[j - own.len()]);
                }
            }
        }
    }
}

proof fn lemma_cmds_paths_children(cs: Seq<NodeV>, p: Seq<Seq<u8>>, i: int)
    ensures
        forall|j: int| 0 <= j < cmds_children(cs, p, i).len() ==> is_path_prefix(
            p,
            (#[trigger] cmds_children(cs, p, i)[j]).path,
        ) && (#[trigger] cmds_children(cs, p, i)[j]).path.len() > p.len(),
    decreases cs, i, 0int,
{
    if 0 < i <= cs.len() {
        lemma_cmds_paths_children(cs, p, i - 1);
        lemma_cmds_paths(cs[i - 1], p);
        let a = cmds_children(cs, p, i - 1);
        let b = cmds_tree(cs[i - 1], p);
        assert forall|j: int| 0 <= j < (a + b).len() implies is_path_prefix(
            p,
            (#[trigger] (a + b)[j]).path,
        ) && (#[trigger] (a + b)[j]).path.len() > p.len() by {
            if j < a.len() {
                assert((a + b)[j] == a[j]);
            } else {
                assert((a + b)[j] == b[j - a.len()]);
                assert(is_path_prefix(p.push(cs[i - 1].name), b[j - a.len()].path));
                assert(is_path_prefix(p, p.push(cs[i - 1].name))) by {
                    assert(p =~= p.push(cs[i - 1].name).subrange(0, p.len() as int));
                }
                lemma_prefix_trans(p, p.push(cs[i - 1].name), b[j - a.len()].path);
            }
        }
    }
}

/// The full path of the addressed node extends the subtree root's path.
proof fn lemma_path_at_prefix(n: NodeV, prefix: Seq<Seq<u8>>, q: Seq<int>)
    requires
        valid_path(n, q),
    ensures
        is_path_prefix(prefix.push(n.name), path_at(n, prefix, q).push(node_at(n, q).name)),
    decreases q.len(),
{
    let p = prefix.push(n.name);
    if q.len() == 0 {
        assert(p =~= p.subrange(0, p.len() as int));
    } else {
        let c = n.data->Ok_0.children->Ok_0[q[0]];
        lemma_path_at_prefix(c, p, q.drop_first());
        let t = path_at(c, p, q.drop_first()).push(node_at(c, q.drop_first()).name);
        assert(is_path_prefix(p, p.push(c.name))) by {
            assert(p =~= p.push(c.name).subrange(0, p.len() as int));
        }
        lemma_prefix_trans(p, p.push(c.name), t);
        assert(path_at(n, prefix, q) == path_at(c, p, q.drop_first()));
        assert(node_at(n, q) == node_at(c, q.drop_first()));
    }
}

proof fn lemma_apply_one(a: Attrs, t: Seq<Seq<u8>>, c1: CmdV)
    ensures
        apply_cmds(a, t, seq![c1], 0) == apply_cmd(a, t, c1),
{
    let s = seq![c1];
    assert(apply_cmds(apply_cmd(a, t, c1), t, s, 1) == apply_cmd(a, t, c1));
}

proof fn lemma_apply_two(a: Attrs, t: Seq<Seq<u8>>, c1: CmdV, c2: CmdV)
    ensures
        apply_cmds(a, t, seq![c1, c2], 0) == apply_cmd(apply_cmd(a, t, c1), t, c2),
{
    let s = seq![c1, c2];
    let a1 = apply_cmd(a, t, c1);
    let a2 = apply_cmd(a1, t, c2);
    assert(apply_cmds(a2, t, s, 2) == a2);
    assert(apply_cmds(a1, t, s, 1) == a2);
}

/// A node's own commands, applied to what it inherits, leave exactly its
/// resolved attributes on every entry they cover.
proof fn lemma_apply_own(inh: Attrs, t: Seq<Seq<u8>>, d: NodeDataV, p: Seq<Seq<u8>>)
    requires
        is_path_prefix(p, t),
    ensures
        apply_cmds(inh, t, own_cmds(d, p), 0) == resolved_attrs(d, inh),
{
    let own = own_cmds(d, p);
    match (d.override_uid, d.override_gid) {
        (Option::Some(u), Option::Some(g)) => {
            let c1 = CmdV { path: p, act: CmdAct::ChownBoth(u, g) };
            match d.override_mode {
                Option::Some(m) => {
                    let c2 = CmdV { path: p, act: CmdAct::Chmod(m) };
                    assert(own =~= seq![c1, c2]);
                    lemma_apply_two(inh, t, c1, c2);
                },
                Option::None => {
                    assert(own =~= seq![c1]);
                    lemma_apply_one(inh, t, c1);
                },
            }
        },
        (Option::Some(u), Option::None) => {
            let c1 = CmdV { path: p, act: CmdAct::ChownUser(u) };
            match d.override_mode {
                Option::Some(m) => {
                    let c2 = CmdV { path: p, act: CmdAct::Chmod(m) };
                    assert(own =~= seq![c1, c2]);
                    lemma_apply_two(inh, t, c1, c2);
                },
                Option::None => {
                    assert(own =~= seq![c1]);
                    lemma_apply_one(inh, t, c1);
                },
            }
        },
        (Option::None, Option::Some(g)) => {
            let c1 = CmdV { path: p, act: CmdAct::ChownGroup(g) };
            match d.override_mode {
                Option::Some(m) => {
                    let c2 = CmdV { path: p, act: CmdAct::Chmod(m) };
                    assert(own =~= seq![c1, c2]);
                    lemma_apply_two(inh, t, c1, c2);
                },
                Option::None => {
                    assert(own =~= seq![c1]);
                    lemma_apply_one(inh, t, c1);
                },
            }
        },
        (Option::None, Option::None) => {
            match d.override_mode {
                Option::Some(m) => {
                    let c2 = CmdV { path: p, act: CmdAct::Chmod(m) };
                    assert(own =~= seq![c2]);
                    lemma_apply_one(inh, t, c2);
                },
                Option::None => {
                    assert(own =~= Seq::<CmdV>::empty());
                    assert(apply_cmds(inh, t, own, 0) == inh);
                },
            }
        },
    }
}

} // verus!

verus! {

proof fn lemma_apply_children_phase(
    cs: Seq<NodeV>,
    p: Seq<Seq<u8>>,
    q: Seq<int>,
    mine: Attrs,
    k: int,
)
    requires
        q.len() > 0,
        0 <= q[0] < cs.len(),
        cs[q[0]].data is Ok,
        uniq_names(cs[q[0]]),
        valid_path(cs[q[0]], q.drop_first()),
        node_at(cs[q[0]], q.drop_first()).data is Ok,
        forall|i: int, j: int| 0 <= i < j < cs.len() ==> (#[trigger] cs[i]).name != (
        #[trigger] cs[j]).name,
        0 <= k <= cs.len(),
    ensures
        apply_cmds(
            mine,
            path_at(cs[q[0]], p, q.drop_first()).push(node_at(cs[q[0]], q.drop_first()).name),
            cmds_children(cs, p, k),
            0,
        ) == if k <= q[0] {
            mine
        } else {
            resolved_at(cs[q[0]], q.drop_first(), mine)
        },
    decreases q.len(), 0int, k,
{
    let j = q[0];
    let rest = q.drop_first();
    let t = path_at(cs[j], p, rest).push(node_at(cs[j], rest).name);
    if k > 0 {
        lemma_apply_children_phase(cs, p, q, mine, k - 1);
        let before = apply_cmds(mine, t, cmds_children(cs, p, k - 1), 0);
        let block = cmds_tree(cs[k - 1], p);
        lemma_apply_split(mine, t, cmds_children(cs, p, k - 1), block, 0);
        if k - 1 == j {
            lemma_apply_subtree(cs[j], p, rest, mine);
        } else {
            lemma_cmds_paths(cs[k - 1], p);
            lemma_path_at_prefix(cs[j], p, rest);
            let pj = p.push(cs[j].name);
            assert(t.subrange(0, pj.len() as int)[p.len() as int] == t[p.len() as int]);
            assert(t[p.len() as int] == cs[j].name);
            assert forall|w: int| 0 <= w < block.len() implies !is_path_prefix(
                (#[trigger] block[w]).path,
                t,
            ) by {
                let pm = p.push(cs[k - 1].name);
                assert(is_path_prefix(pm, block[w].path));
                assert(block[w].path.subrange(0, pm.len() as int)[p.len() as int]
                    == block[w].path[p.len() as int]);
                assert(block[w].path[p.len() as int] == cs[k - 1].name);
                if is_path_prefix(block[w].path, t) {
                    assert(t.subrange(0, block[w].path.len() as int)[p.len() as int]
                        == t[p.len() as int]);
                    assert(block[w].path[p.len() as int] == t[p.len() as int]);
                    assert(cs[k - 1].name == cs[j].name);
                    if k - 1 < j {
                        assert(cs[k - 1].name != cs[j].name);
                    } else {
                        assert(cs[j].name != cs[k - 1].name);
                    }
                }
            }
            lemma_apply_none(before, t, block, 0);
        }
    }
}

/// Round-trip reproducibility: executing the synthesized command sequence
/// of a subtree, in order, against entries that currently carry the
/// inherited attributes `inh`, leaves the entry addressed by any index
/// path with exactly its resolved (inherited-or-overridden) attributes.
/// At a root every field is explicit, so the result does not depend on
/// what the freshly created entries started with.
pub proof fn lemma_round_trip(n: NodeV, prefix: Seq<Seq<u8>>, q: Seq<int>, inh: Attrs)
    requires
        n.data is Ok,
        uniq_names(n),
        valid_path(n, q),
        node_at(n, q).data is Ok,
    ensures
        apply_cmds(
            inh,
            path_at(n, prefix, q).push(node_at(n, q).name),
            cmds_tree(n, prefix),
            0,
        ) == resolved_at(n, q, inh),
{
    lemma_apply_subtree(n, prefix, q, inh);
}

proof fn lemma_apply_subtree(n: NodeV, prefix: Seq<Seq<u8>>, q: Seq<int>, inh: Attrs)
    requires
        n.data is Ok,
        uniq_names(n),
        valid_path(n, q),
        node_at(n, q).data is Ok,
    ensures
        apply_cmds(
            inh,
            path_at(n, prefix, q).push(node_at(n, q).name),
            cmds_tree(n, prefix),
            0,
        ) == resolved_at(n, q, inh),
    decreases q.len(), 1int, 0int,
{
    let d = n.data->Ok_0;
    let p = prefix.push(n.name);
    let t = path_at(n, prefix, q).push(node_at(n, q).name);
    let own = own_cmds(d, p);
    let mine = resolved_attrs(d, inh);
    lemma_path_at_prefix(n, prefix, q);
    lemma_apply_own(inh, t, d, p);
    if d.children is Ok {
        let cs = n.data->Ok_0.children->Ok_0;
        let blocks = cmds_children(cs, p, cs.len() as int);
        lemma_apply_split(inh, t, own, blocks, 0);
        if q.len() == 0 {
            assert(t == p);
            lemma_cmds_paths_children(cs, p, cs.len() as int);
            assert forall|w: int| 0 <= w < blocks.len() implies !is_path_prefix(
                (#[trigger] blocks[w]).path,
                t,
            ) by {
                assert(blocks[w].path.len() > p.len());
            }
            lemma_apply_none(mine, t, blocks, 0);
        } else {
            let j = q[0];
            let rest = q.drop_first();
            assert(valid_path(cs[j], rest));
            assert(node_at(n, q) == node_at(cs[j], rest));
            if rest.len() == 0 {
                assert(node_at(cs[j], rest) == cs[j]);
            }
            assert(cs[j].data is Ok);
            assert(uniq_names(cs[j]));
            assert(path_at(n, prefix, q) == path_at(cs[j], p, rest));
            assert(node_at(n, q) == node_at(cs[j], rest));
            lemma_apply_children_phase(cs, p, q, mine, cs.len() as int);
        }
    } else {
        assert(q.len() == 0);
        assert(t == p);
        assert(cmds_tree(n, prefix) == own + Seq::<CmdV>::empty());
        assert(own + Seq::<CmdV>::empty() =~= own);
    }
}

} // verus!
