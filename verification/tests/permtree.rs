use permtree::tree::{Attrs, FileKind, Node, ProbeError, RawData, RawNode};
use permtree::builder::{build_tree, maybe_override};
use permtree::prune::prune;
use permtree::traverse::preorder;
use permtree::names::{name_or_fallback, NameCache};
use permtree::render::display_tree;
use permtree::commands::{bash_encode, display_commands, synthesize_commands, Cmd, CmdAct};
use permtree::text::{chars_to_string, dec_chars};

fn raw_leaf(name: &str, mode: u32, uid: u32, gid: u32) -> RawNode {
    RawNode {
        name: name.as_bytes().to_vec(),
        probe: Ok(RawData { mode, uid, gid, kind: FileKind::Leaf, listing: Ok(vec![]) }),
    }
}

fn raw_dir(name: &str, mode: u32, uid: u32, gid: u32, children: Vec<RawNode>) -> RawNode {
    RawNode {
        name: name.as_bytes().to_vec(),
        probe: Ok(RawData { mode, uid, gid, kind: FileKind::Directory, listing: Ok(children) }),
    }
}

fn node_data(n: &Node) -> &permtree::tree::NodeData {
    n.data.as_ref().expect("probe should have succeeded")
}

fn children(n: &Node) -> &Vec<Node> {
    node_data(n).children.as_ref().expect("listing should have succeeded")
}

#[test]
fn maybe_override_equal_is_inherited() {
    assert_eq!(maybe_override(0o755, 0o755), None);
}

#[test]
fn maybe_override_different_is_explicit() {
    assert_eq!(maybe_override(0o755, 0o644), Some(0o644));
}

#[test]
fn root_is_fully_explicit() {
    let t = build_tree(&raw_leaf("r", 0o755, 1, 1), None);
    let d = node_data(&t);
    assert_eq!(d.override_mode, Some(0o755));
    assert_eq!(d.override_uid, Some(1));
    assert_eq!(d.override_gid, Some(1));
}

#[test]
fn child_overrides_only_what_differs() {
    let t = build_tree(
        &raw_dir("r", 0o755, 1, 1, vec![raw_leaf("b", 0o644, 2, 1)]),
        None,
    );
    let b = &children(&t)[0];
    let d = node_data(b);
    assert_eq!(d.override_mode, Some(0o644));
    assert_eq!(d.override_uid, Some(2));
    assert_eq!(d.override_gid, None);
}

#[test]
fn overrides_are_relative_to_immediate_parent() {
    // grandchild matches the middle directory, not the root
    let t = build_tree(
        &raw_dir(
            "r",
            0o755,
            1,
            1,
            vec![raw_dir("m", 0o700, 2, 2, vec![raw_leaf("g", 0o700, 2, 2)])],
        ),
        None,
    );
    let m = &children(&t)[0];
    let g = &children(m)[0];
    let d = node_data(g);
    assert_eq!(d.override_mode, None);
    assert_eq!(d.override_uid, None);
    assert_eq!(d.override_gid, None);
}

#[test]
fn build_masks_mode_to_twelve_bits() {
    // a regular-file mode word with type bits set
    let t = build_tree(&raw_leaf("f", 0o100644, 1, 1), None);
    assert_eq!(node_data(&t).override_mode, Some(0o644));
}

#[test]
fn build_sorts_children_by_name_bytes() {
    let t = build_tree(
        &raw_dir(
            "r",
            0o755,
            1,
            1,
            vec![
                raw_leaf("zeta", 0o600, 1, 1),
                raw_leaf("alpha", 0o601, 1, 1),
                raw_leaf("middle", 0o602, 1, 1),
            ],
        ),
        None,
    );
    let names: Vec<&[u8]> = children(&t).iter().map(|c| c.name.as_slice()).collect();
    assert_eq!(names, vec![b"alpha".as_slice(), b"middle".as_slice(), b"zeta".as_slice()]);
}

#[test]
fn prune_discards_fully_inherited_subtrees() {
    let t = build_tree(
        &raw_dir(
            "r",
            0o755,
            1,
            1,
            vec![raw_leaf("a", 0o755, 1, 1), raw_leaf("b", 0o644, 2, 1)],
        ),
        None,
    );
    let p = prune(t).expect("root is explicit and must survive");
    let cs = children(&p);
    assert_eq!(cs.len(), 1);
    assert_eq!(cs[0].name, b"b".to_vec());
}

#[test]
fn prune_discards_empty_inherited_directory() {
    // an empty directory with no overrides vanishes from output
    let t = build_tree(
        &raw_dir("r", 0o755, 1, 1, vec![raw_dir("empty", 0o755, 1, 1, vec![])]),
        None,
    );
    let p = prune(t).expect("root survives");
    assert_eq!(children(&p).len(), 0);
}

#[test]
fn prune_keeps_probe_errors() {
    let t = build_tree(
        &raw_dir(
            "r",
            0o755,
            1,
            1,
            vec![RawNode { name: b"bad".to_vec(), probe: Err(ProbeError::NotFound) }],
        ),
        None,
    );
    let p = prune(t).expect("root survives");
    let cs = children(&p);
    assert_eq!(cs.len(), 1);
    assert_eq!(cs[0].data, Err(ProbeError::NotFound));
}

#[test]
fn prune_keeps_listing_failures() {
    let t = build_tree(
        &raw_dir(
            "r",
            0o755,
            1,
            1,
            vec![RawNode {
                name: b"locked".to_vec(),
                probe: Ok(RawData {
                    mode: 0o755,
                    uid: 1,
                    gid: 1,
                    kind: FileKind::Directory,
                    listing: Err(ProbeError::PermissionDenied),
                }),
            }],
        ),
        None,
    );
    let p = prune(t).expect("root survives");
    let cs = children(&p);
    assert_eq!(cs.len(), 1);
    assert_eq!(cs[0].name, b"locked".to_vec());
    assert_eq!(node_data(&cs[0]).children, Err(ProbeError::PermissionDenied));
}

fn example_tree() -> RawNode {
    raw_dir(
        "r",
        0o755,
        1,
        1,
        vec![raw_leaf("a", 0o755, 1, 1), raw_leaf("b", 0o644, 2, 1)],
    )
}

#[test]
fn prune_is_idempotent_on_example() {
    let once = prune(build_tree(&example_tree(), None)).unwrap();
    let again = prune(prune(build_tree(&example_tree(), None)).unwrap()).unwrap();
    assert_eq!(once, again);
}

#[test]
fn preorder_visits_parent_before_children_with_depths() {
    let t = build_tree(&example_tree(), None);
    let visits = preorder(&t);
    assert_eq!(visits.len(), 3);
    assert_eq!(visits[0].name, b"r".to_vec());
    assert_eq!(visits[0].depth, 0);
    assert_eq!(visits[1].name, b"a".to_vec());
    assert_eq!(visits[1].depth, 1);
    assert_eq!(visits[2].name, b"b".to_vec());
    assert_eq!(visits[2].depth, 1);
}

#[test]
fn example_scenario_tree_display() {
    let pruned = prune(build_tree(&example_tree(), None)).unwrap();
    let mut cache = NameCache::new();
    let u1 = cache.display_uid(1);
    let g1 = cache.display_gid(1);
    let u2 = cache.display_uid(2);
    let mut fresh = NameCache::new();
    let out = display_tree(&pruned, &mut fresh);
    let expected = format!(
        "[ perms: 0755, user: {}, group: {}, ] r\n  [ perms: 0644, user: {}, ] b\n",
        u1, g1, u2
    );
    assert_eq!(out, expected);
}

#[test]
fn example_scenario_commands() {
    let pruned = prune(build_tree(&example_tree(), None)).unwrap();
    let mut cache = NameCache::new();
    let u1 = cache.display_uid(1);
    let g1 = cache.display_gid(1);
    let u2 = cache.display_uid(2);
    let root_path = bash_encode(&vec![b"r".to_vec()]);
    let b_path = bash_encode(&vec![b"r".to_vec(), b"b".to_vec()]);
    let mut fresh = NameCache::new();
    let lines = display_commands(&pruned, &mut fresh);
    let expected = vec![
        format!("chown -R {}:{} {}", u1, g1, root_path),
        format!("chmod -R 00755 {}", root_path),
        format!("chown -R {} {}", u2, b_path),
        format!("chmod -R 00644 {}", b_path),
    ];
    assert_eq!(lines, expected);
}

#[test]
fn commands_skip_nodes_without_overrides() {
    // retained only for its descendant: no command for the directory itself
    let t = prune(build_tree(
        &raw_dir(
            "r",
            0o755,
            1,
            1,
            vec![raw_dir("keep", 0o755, 1, 1, vec![raw_leaf("x", 0o600, 1, 1)])],
        ),
        None,
    ))
    .unwrap();
    let cmds = synthesize_commands(&t);
    let paths: Vec<&Cmd> = cmds
        .iter()
        .filter(|c| c.path == vec![b"r".to_vec(), b"keep".to_vec()])
        .collect();
    assert!(paths.is_empty());
}

#[test]
fn unreadable_directory_gets_no_content_commands() {
    // listing fails with permission denied: the node is kept, nothing below
    // it is commanded, and siblings are still processed
    let t = prune(build_tree(
        &RawNode {
            name: b"r".to_vec(),
            probe: Ok(RawData {
                mode: 0o755,
                uid: 1,
                gid: 1,
                kind: FileKind::Directory,
                listing: Ok(vec![
                    RawNode {
                        name: b"locked".to_vec(),
                        probe: Ok(RawData {
                            mode: 0o755,
                            uid: 1,
                            gid: 1,
                            kind: FileKind::Directory,
                            listing: Err(ProbeError::PermissionDenied),
                        }),
                    },
                    raw_leaf("open", 0o600, 2, 2),
                ]),
            }),
        },
        None,
    ))
    .unwrap();
    assert_eq!(children(&t).len(), 2);
    let cmds = synthesize_commands(&t);
    // root's two commands, then the sibling's two; none for `locked`
    assert_eq!(cmds.len(), 4);
    assert!(cmds.iter().all(|c| !c.path.contains(&b"locked".to_vec())));
    let open_cmds: Vec<&Cmd> = cmds
        .iter()
        .filter(|c| c.path == vec![b"r".to_vec(), b"open".to_vec()])
        .collect();
    assert_eq!(open_cmds.len(), 2);
    assert_eq!(open_cmds[0].act, CmdAct::ChownBoth(2, 2));
    assert_eq!(open_cmds[1].act, CmdAct::Chmod(0o600));
}

#[test]
fn error_nodes_render_a_marker() {
    let t = Node { name: b"gone".to_vec(), data: Err(ProbeError::NotFound) };
    let mut cache = NameCache::new();
    let out = display_tree(&t, &mut cache);
    assert_eq!(out, " [ error reading metadata ] gone\n");
}

#[test]
fn group_only_override_uses_chgrp() {
    let t = prune(build_tree(
        &raw_dir("r", 0o755, 1, 1, vec![raw_leaf("g", 0o755, 1, 9)]),
        None,
    ))
    .unwrap();
    let cmds = synthesize_commands(&t);
    assert_eq!(cmds.len(), 3);
    assert_eq!(cmds[2].act, CmdAct::ChownGroup(9));
}

#[test]
fn name_fallback_is_decimal_id() {
    let r = name_or_fallback(54321, None);
    assert_eq!(chars_to_string(&r), "54321");
}

#[test]
fn name_lookup_result_is_kept() {
    let r = name_or_fallback(54321, Some(vec!['w', 'h', 'o']));
    assert_eq!(chars_to_string(&r), "who");
}

#[test]
fn repeated_resolution_is_cached_and_identical() {
    let mut cache = NameCache::new();
    let first = cache.display_uid(0);
    let second = cache.display_uid(0);
    assert_eq!(first, second);
    // an id very unlikely to be in any database: falls back, still cached
    let a = cache.display_uid(4294967294);
    let b = cache.display_uid(4294967294);
    assert_eq!(a, b);
    let ga = cache.display_gid(4294967294);
    let gb = cache.display_gid(4294967294);
    assert_eq!(ga, gb);
}

#[test]
fn bash_encode_hex_escapes_every_byte() {
    let s = bash_encode(&vec![b"r".to_vec(), b"b".to_vec()]);
    assert_eq!(s, "\"$(printf \"\\x72/\\x62\")\"");
}

#[test]
fn bash_encode_handles_awkward_bytes() {
    let s = bash_encode(&vec![vec![b' ', 0x07, b'\n']]);
    assert_eq!(s, "\"$(printf \"\\x20\\x07\\x0a\")\"");
}

#[test]
fn decimal_rendering_is_exact() {
    assert_eq!(chars_to_string(&dec_chars(0)), "0");
    assert_eq!(chars_to_string(&dec_chars(4294967295)), "4294967295");
}

#[test]
fn setuid_bits_are_kept_and_mode_has_extra_zero() {
    let t = prune(build_tree(&raw_leaf("s", 0o4755, 3, 3), None)).unwrap();
    let mut cache = NameCache::new();
    let lines = display_commands(&t, &mut cache);
    assert!(lines[1].starts_with("chmod -R 04755 "));
}

#[test]
fn attrs_carry_plain_values() {
    let a = Attrs { mode: 0o755, uid: 1, gid: 2 };
    assert_eq!(a, Attrs { mode: 0o755, uid: 1, gid: 2 });
}

#[test]
fn preorder_traversal_appends_at_given_depth() {
    let t = build_tree(&raw_leaf("x", 0o755, 1, 1), None);
    let mut out = Vec::new();
    permtree::traverse::preorder_traversal(&t, 3, &mut out);
    assert_eq!(out.len(), 1);
    assert_eq!(out[0].depth, 3);
    assert_eq!(out[0].name, b"x".to_vec());
}

#[test]
fn full_mode_word_renders_all_octal_digits() {
    let t = prune(build_tree(&raw_leaf("m", 0o7777, 1, 1), None)).unwrap();
    let mut cache = NameCache::new();
    let lines = display_commands(&t, &mut cache);
    assert!(lines[1].starts_with("chmod -R 07777 "));
}

#[test]
fn bash_encode_of_empty_component_is_empty_printf() {
    let s = bash_encode(&vec![vec![]]);
    assert_eq!(s, "\"$(printf \"\")\"");
}
