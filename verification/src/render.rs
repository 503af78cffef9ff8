//! Tree Renderer: one line per visited node, indented by depth, showing
//! only the attributes that are overridden there, with user and group ids
//! resolved to display names.

use vstd::prelude::*;
use crate::tree::{Node, node_view};
use crate::traverse::{VisitV, height, preorder, preorder_spec, visit_views};
use crate::names::NameCache;
use crate::text::{chars_to_string, octal4_str, push_chars, push_octal4, str_to_chars};

verus! {

/// A name byte in display output: the character with that code point.
pub open spec fn byte_char(b: u8) -> char {
    b as char
}

/// The displayed form of a raw name.
pub open spec fn name_chars(name: Seq<u8>) -> Seq<char> {
    Seq::new(name.len(), |i: int| byte_char(name[i]))
}

/// Two spaces of indentation per depth unit.
pub open spec fn indent(depth: nat) -> Seq<char> {
    Seq::new(2 * depth, |i: int| ' ')
}

/// The ids displayed for one visit are all in the cache maps.
pub open spec fn visit_ids_cached(
    v: VisitV,
    umap: Map<u32, Seq<char>>,
    gmap: Map<u32, Seq<char>>,
) -> bool {
    v.probe is Ok ==> {
        &&& (v.probe->Ok_0.uid is Some ==> umap.contains_key(v.probe->Ok_0.uid->0))
        &&& (v.probe->Ok_0.gid is Some ==> gmap.contains_key(v.probe->Ok_0.gid->0))
    }
}

/// One line of the annotated tree: indentation, then the overridden
/// attributes in brackets (or an error marker), a space, and the name.
pub open spec fn line_of(v: VisitV, umap: Map<u32, Seq<char>>, gmap: Map<u32, Seq<char>>) -> Seq<
    char,
> {
    indent(v.depth) + (match v.probe {
        Result::Err(_) => " [ error reading metadata ]"@,
        Result::Ok(o) => "[ "@ + (match o.mode {
            Option::Some(m) => "perms: "@ + octal4_str(m) + ", "@,
            Option::None => Seq::empty(),
        }) + (match o.uid {
            Option::Some(u) => "user: "@ + umap[u] + ", "@,
            Option::None => Seq::empty(),
        }) + (match o.gid {
            Option::Some(g) => "group: "@ + gmap[g] + ", "@,
            Option::None => Seq::empty(),
        }) + "]"@,
    }) + seq![' '] + name_chars(v.name) + seq!['\n']
}

/// The first `i` lines of the rendering.
pub open spec fn render_upto(
    vs: Seq<VisitV>,
    umap: Map<u32, Seq<char>>,
    gmap: Map<u32, Seq<char>>,
    i: int,
) -> Seq<char>
    decreases i,
{
    if i <= 0 || i > vs.len() {
        Seq::empty()
    } else {
        render_upto(vs, umap, gmap, i - 1) + line_of(vs[i - 1], umap, gmap)
    }
}

/// The whole annotated tree text for a visit sequence.
pub open spec fn render_tree_spec(
    vs: Seq<VisitV>,
    umap: Map<u32, Seq<char>>,
    gmap: Map<u32, Seq<char>>,
) -> Seq<char> {
    render_upto(vs, umap, gmap, vs.len() as int)
}

/// Lines already rendered do not change when the cache learns new ids.
proof fn lemma_render_stable(
    vs: Seq<VisitV>,
    u1: Map<u32, Seq<char>>,
    g1: Map<u32, Seq<char>>,
    u2: Map<u32, Seq<char>>,
    g2: Map<u32, Seq<char>>,
    i: int,
)
    requires
        0 <= i <= vs.len(),
        forall|k: u32| #[trigger] u1.contains_key(k) ==> u2.contains_key(k) && u2[k] == u1[k],
        forall|k: u32| #[trigger] g1.contains_key(k) ==> g2.contains_key(k) && g2[k] == g1[k],
        forall|j: int| 0 <= j < i ==> visit_ids_cached(#[trigger] vs[j], u1, g1),
    ensures
        render_upto(vs, u2, g2, i) == render_upto(vs, u1, g1, i),
    decreases i,
{
    if i > 0 {
        lemma_render_stable(vs, u1, g1, u2, g2, i - 1);
        assert(visit_ids_cached(vs[i - 1], u1, g1));
        assert(line_of(vs[i - 1], u2, g2) == line_of(vs[i - 1], u1, g1));
    }
}

/// Appends the indentation for one depth.
fn push_indent(out: &mut Vec<char>, depth: usize)
    ensures
        final(out)@ == old(out)@ + indent(depth as nat),
{
    let mut j: usize = 0;
    proof {
        assert(out@ =~= old(out)@ + indent(0));
    }
    while j < depth
        invariant
            j <= depth,
            out@ == old(out)@ + indent(j as nat),
        decreases depth - j,
    {
        out.push(' ');
        out.push(' ');
        proof {
            assert((old(out)@ + indent(j as nat)).push(' ').push(' ') =~= old(out)@ + indent(
                j as nat + 1,
            ));
        }
        j += 1;
    }
}

/// Appends a raw name, one character per byte.
fn push_name(out: &mut Vec<char>, name: &Vec<u8>)
    ensures
        final(out)@ == old(out)@ + name_chars(name@),
{
    let mut j: usize = 0;
    proof {
        assert(out@ =~= old(out)@ + name_chars(name@).take(0));
    }
    while j < name.len()
        invariant
            j <= name.len(),
            out@ == old(out)@ + name_chars(name@).take(j as int),
        decreases name.len() - j,
    {
        out.push(name[j] as char);
        proof {
            assert((old(out)@ + name_chars(name@).take(j as int)).push(byte_char(name@[j as int]))
                =~= old(out)@ + name_chars(name@).take(j as int + 1));
        }
        j += 1;
    }
    proof {
        assert(name_chars(name@).take(name@.len() as int) =~= name_chars(name@));
    }
}

/// Print the tree: one line per preorder visit, each showing only what is
/// overridden at that node.  Ids are resolved through the cache, so the
/// text is exactly the rendering under the cache's final contents.
#[verifier::rlimit(80)]
pub fn display_tree(root: &Node, cache: &mut NameCache) -> (r: String)
    requires
        old(cache).wf(),
        height(node_view(*root)) <= usize::MAX,
    ensures
        final(cache).wf(),
        forall|k: u32| #[trigger] old(cache).umap().contains_key(k) ==> final(cache).umap().contains_key(k) && final(cache).umap()[k] == old(cache).umap()[k],
        forall|k: u32| #[trigger] old(cache).gmap().contains_key(k) ==> final(cache).gmap().contains_key(k) && final(cache).gmap()[k] == old(cache).gmap()[k],
        forall|j: int| 0 <= j < preorder_spec(node_view(*root), 0).len() ==> visit_ids_cached(
            #[trigger] preorder_spec(node_view(*root), 0)[j],
            final(cache).umap(),
            final(cache).gmap(),
        ),
        r@ == render_tree_spec(
            preorder_spec(node_view(*root), 0),
            final(cache).umap(),
            final(cache).gmap(),
        ),
{
    let visits = preorder(root);
    let ghost vs = visit_views(visits@);
    let mut out: Vec<char> = Vec::new();
    let mut i: usize = 0;
    proof {
        assert(out@ =~= render_upto(vs, cache.umap(), cache.gmap(), 0));
    }
    while i < visits.len()
        invariant
            i <= visits.len(),
            vs == visit_views(visits@),
            vs == preorder_spec(node_view(*root), 0),
            cache.wf(),
            forall|k: u32| #[trigger] old(cache).umap().contains_key(k) ==> cache.umap().contains_key(
                k,
            ) && cache.umap()[k] == old(cache).umap()[k],
            forall|k: u32| #[trigger] old(cache).gmap().contains_key(k) ==> cache.gmap().contains_key(
                k,
            ) && cache.gmap()[k] == old(cache).gmap()[k],
            forall|j: int| 0 <= j < i ==> visit_ids_cached(
                #[trigger] vs[j],
                cache.umap(),
                cache.gmap(),
            ),
            out@ == render_upto(vs, cache.umap(), cache.gmap(), i as int),
        decreases visits.len() - i,
    {
        let ghost u0 = cache.umap();
        let ghost g0 = cache.gmap();
        let ghost out0 = out@;
        proof {
            assert(vs[i as int] == visits@[i as int]@);
        }
        let v = &visits[i];
        push_indent(&mut out, v.depth);
        match &v.probe {
            Result::Err(_) => {
                let lit = str_to_chars(" [ error reading metadata ]");
                push_chars(&mut out, &lit);
            },
            Result::Ok(o) => {
                let lit = str_to_chars("[ ");
                push_chars(&mut out, &lit);
                match o.mode {
                    Option::Some(m) => {
                        let lit2 = str_to_chars("perms: ");
                        push_chars(&mut out, &lit2);
                        push_octal4(&mut out, m);
                        let lit3 = str_to_chars(", ");
                        push_chars(&mut out, &lit3);
                    },
                    Option::None => {},
                }
                match o.uid {
                    Option::Some(u) => {
                        let lit2 = str_to_chars("user: ");
                        push_chars(&mut out, &lit2);
                        let uname = cache.resolve_uid(u);
                        push_chars(&mut out, &uname);
                        let lit3 = str_to_chars(", ");
                        push_chars(&mut out, &lit3);
                    },
                    Option::None => {},
                }
                match o.gid {
                    Option::Some(g) => {
                        let lit2 = str_to_chars("group: ");
                        push_chars(&mut out, &lit2);
                        let gname = cache.resolve_gid(g);
                        push_chars(&mut out, &gname);
                        let lit3 = str_to_chars(", ");
                        push_chars(&mut out, &lit3);
                    },
                    Option::None => {},
                }
                let lit4 = str_to_chars("]");
                push_chars(&mut out, &lit4);
            },
        }
        out.push(' ');
        push_name(&mut out, &v.name);
        out.push('\n');
        proof {
            lemma_render_stable(vs, u0, g0, cache.umap(), cache.gmap(), i as int);
            assert(out@ =~= out0 + line_of(vs[i as int], cache.umap(), cache.gmap()));
            assert(out@ =~= render_upto(vs, cache.umap(), cache.gmap(), i as int + 1));
        }
        i += 1;
    }
    chars_to_string(&out)
}

} // verus!
