use floor_cache::floor::{Floor, FloorError};
use floor_cache::path::NodePath;
use floor_cache::tree::{Attrs, NodeKind, SceneNode};

fn node(name: &str, kind: NodeKind, layer: i64, mask: i64, children: Vec<SceneNode>) -> SceneNode {
    SceneNode {
        name: name.to_string(),
        kind,
        attrs: Attrs { layer, mask },
        children,
    }
}

fn path(segs: &[&str]) -> NodePath {
    let mut p = NodePath::root();
    for s in segs {
        p = p.child(&s.to_string());
    }
    p
}

/// Root R with a rigid-collidable child B1 (layer=1, mask=2) and a
/// tile-grid T1 (layer=4, mask=8) nested under a container C.
fn sample_tree() -> SceneNode {
    node(
        "R",
        NodeKind::Plain,
        0,
        0,
        vec![
            node("B1", NodeKind::RigidCollidable, 1, 2, vec![]),
            node(
                "C",
                NodeKind::Plain,
                0,
                0,
                vec![node("T1", NodeKind::TileGridCollidable, 4, 8, vec![])],
            ),
        ],
    )
}

/// Two independent agent-guarded subtrees with distinct values.
fn two_agent_tree() -> SceneNode {
    node(
        "R",
        NodeKind::Plain,
        0,
        0,
        vec![
            node(
                "A",
                NodeKind::Plain,
                0,
                0,
                vec![
                    node("agent", NodeKind::ChangeAgent, 0, 0, vec![]),
                    node("body", NodeKind::RigidCollidable, 1, 2, vec![]),
                ],
            ),
            node(
                "B",
                NodeKind::Plain,
                0,
                0,
                vec![
                    node("agent", NodeKind::ChangeAgent, 0, 0, vec![]),
                    node("body", NodeKind::RigidCollidable, 16, 32, vec![]),
                ],
            ),
        ],
    )
}

#[test]
fn initialize_caches_attributes() {
    let root = sample_tree();
    let mut floor = Floor::new();
    floor.initialize(&root);
    assert_eq!(
        floor.cached_attrs(&path(&["B1"])),
        Some(Attrs { layer: 1, mask: 2 })
    );
    assert_eq!(
        floor.cached_attrs(&path(&["C", "T1"])),
        Some(Attrs { layer: 4, mask: 8 })
    );
    assert_eq!(floor.cached_attrs(&path(&["C"])), None);
    assert!(floor.is_enabled());
}

#[test]
fn disable_zeroes_all_live() {
    let mut root = sample_tree();
    let mut floor = Floor::new();
    floor.initialize(&root);
    floor.disable_collision(&mut root);
    assert!(!floor.is_enabled());
    assert_eq!(root.children[0].attrs, Attrs { layer: 0, mask: 0 });
    assert_eq!(root.children[1].children[0].attrs, Attrs { layer: 0, mask: 0 });
    // the cache keeps the original values
    assert_eq!(
        floor.cached_attrs(&path(&["B1"])),
        Some(Attrs { layer: 1, mask: 2 })
    );
}

#[test]
fn round_trip_restores_attributes() {
    let mut root = sample_tree();
    let mut floor = Floor::new();
    floor.initialize(&root);
    floor.disable_collision(&mut root);
    let r = floor.enable_collision(&mut root);
    assert!(r.is_ok());
    assert!(floor.is_enabled());
    assert_eq!(root.children[0].attrs, Attrs { layer: 1, mask: 2 });
    assert_eq!(root.children[1].children[0].attrs, Attrs { layer: 4, mask: 8 });
}

#[test]
fn disable_twice_idempotent() {
    let mut root = sample_tree();
    let mut floor = Floor::new();
    floor.initialize(&root);
    floor.disable_collision(&mut root);
    let live_once = (
        root.children[0].attrs,
        root.children[1].children[0].attrs,
    );
    floor.disable_collision(&mut root);
    let live_twice = (
        root.children[0].attrs,
        root.children[1].children[0].attrs,
    );
    assert_eq!(live_once, live_twice);
    assert_eq!(live_twice.0, Attrs { layer: 0, mask: 0 });
    // the cache is not corrupted by the second pass
    assert_eq!(
        floor.cached_attrs(&path(&["B1"])),
        Some(Attrs { layer: 1, mask: 2 })
    );
    assert_eq!(
        floor.cached_attrs(&path(&["C", "T1"])),
        Some(Attrs { layer: 4, mask: 8 })
    );
    // and a later enable still restores the originals
    let r = floor.enable_collision(&mut root);
    assert!(r.is_ok());
    assert_eq!(root.children[0].attrs, Attrs { layer: 1, mask: 2 });
}

#[test]
fn scoped_refresh_updates_only_target() {
    let mut root = two_agent_tree();
    let mut floor = Floor::new();
    floor.initialize(&root);
    // A's collision attributes change externally
    root.children[0].children[1].attrs = Attrs { layer: 64, mask: 128 };
    let r = floor._on_agent_collision_changed(&mut root, &path(&["A"]));
    assert!(r.is_ok());
    // A's entries were re-captured, B's are exactly unchanged
    assert_eq!(
        floor.cached_attrs(&path(&["A", "body"])),
        Some(Attrs { layer: 64, mask: 128 })
    );
    assert_eq!(
        floor.cached_attrs(&path(&["B", "body"])),
        Some(Attrs { layer: 16, mask: 32 })
    );
    // enabled: the freshly cached values stay live
    assert_eq!(root.children[0].children[1].attrs, Attrs { layer: 64, mask: 128 });
}

#[test]
fn disabled_notify_keeps_subtree_zero() {
    let mut root = two_agent_tree();
    let mut floor = Floor::new();
    floor.initialize(&root);
    floor.disable_collision(&mut root);
    // A's attributes change externally while disabled
    root.children[0].children[1].attrs = Attrs { layer: 7, mask: 9 };
    let r = floor._on_agent_collision_changed(&mut root, &path(&["A"]));
    assert!(r.is_ok());
    // the cache reflects the new values...
    assert_eq!(
        floor.cached_attrs(&path(&["A", "body"])),
        Some(Attrs { layer: 7, mask: 9 })
    );
    // ...but the live attributes are re-zeroed to keep the disable invariant
    assert_eq!(root.children[0].children[1].attrs, Attrs { layer: 0, mask: 0 });
    // and B's live state is untouched (still zero from the disable)
    assert_eq!(root.children[1].children[1].attrs, Attrs { layer: 0, mask: 0 });
}

#[test]
fn enable_missing_entry_fails() {
    let mut root = sample_tree();
    let mut floor = Floor::new();
    floor.initialize(&root);
    // a collidable appears after initialization, never refreshed
    root.children
        .push(node("late", NodeKind::RigidCollidable, 5, 6, vec![]));
    let r = floor.enable_collision(&mut root);
    match r {
        Err(FloorError::MissingCacheEntry(p)) => {
            assert!(p.same_as(&path(&["late"])));
        }
        other => panic!("expected MissingCacheEntry, got {:?}", other.is_ok()),
    }
    // entries for other nodes are not corrupted
    assert_eq!(
        floor.cached_attrs(&path(&["B1"])),
        Some(Attrs { layer: 1, mask: 2 })
    );
    assert_eq!(
        floor.cached_attrs(&path(&["C", "T1"])),
        Some(Attrs { layer: 4, mask: 8 })
    );
}

#[test]
fn disable_while_disabled_catches_new_nodes() {
    let mut root = sample_tree();
    let mut floor = Floor::new();
    floor.initialize(&root);
    floor.disable_collision(&mut root);
    // a collidable appears while disabled, carrying its real attributes
    root.children
        .push(node("late", NodeKind::RigidCollidable, 5, 6, vec![]));
    // the second disable re-caches what is new without clobbering the rest
    floor.disable_collision(&mut root);
    assert_eq!(root.children[2].attrs, Attrs { layer: 0, mask: 0 });
    assert_eq!(
        floor.cached_attrs(&path(&["late"])),
        Some(Attrs { layer: 5, mask: 6 })
    );
    assert_eq!(
        floor.cached_attrs(&path(&["B1"])),
        Some(Attrs { layer: 1, mask: 2 })
    );
    let r = floor.enable_collision(&mut root);
    assert!(r.is_ok());
    assert_eq!(root.children[2].attrs, Attrs { layer: 5, mask: 6 });
    assert_eq!(root.children[0].attrs, Attrs { layer: 1, mask: 2 });
}

#[test]
fn enable_without_initialization_fails() {
    let mut root = sample_tree();
    let mut floor = Floor::new();
    let r = floor.enable_collision(&mut root);
    assert!(matches!(r, Err(FloorError::MissingCacheEntry(_))));
    // the live tree is left as it stood
    assert_eq!(root.children[0].attrs, Attrs { layer: 1, mask: 2 });
}

#[test]
fn notify_unresolved_reference() {
    let mut root = sample_tree();
    let mut floor = Floor::new();
    floor.initialize(&root);
    let r = floor._on_agent_collision_changed(&mut root, &path(&["nowhere"]));
    assert!(matches!(r, Err(FloorError::UnresolvedReference)));
}

#[test]
fn refresh_modes() {
    let mut root = sample_tree();
    let mut floor = Floor::new();
    floor.initialize(&root);
    // live values drift without a notification
    root.children[0].attrs = Attrs { layer: 100, mask: 200 };
    // only-cache-new leaves the existing entry untouched
    floor.cache_collision(&root, &NodePath::root(), Some(true));
    assert_eq!(
        floor.cached_attrs(&path(&["B1"])),
        Some(Attrs { layer: 1, mask: 2 })
    );
    // a forced refresh overwrites it
    floor.cache_collision(&root, &NodePath::root(), Some(false));
    assert_eq!(
        floor.cached_attrs(&path(&["B1"])),
        Some(Attrs { layer: 100, mask: 200 })
    );
}

#[test]
fn agent_registration_idempotent() {
    let root = two_agent_tree();
    let mut floor = Floor::new();
    floor.initialize(&root);
    assert!(floor.is_agent_registered(&path(&["A", "agent"])));
    assert!(floor.is_agent_registered(&path(&["B", "agent"])));
    assert!(!floor.is_agent_registered(&path(&["A", "body"])));
    // a second walk re-registers nothing and changes nothing
    floor.initialize(&root);
    assert!(floor.is_agent_registered(&path(&["A", "agent"])));
    assert_eq!(
        floor.cached_attrs(&path(&["A", "body"])),
        Some(Attrs { layer: 1, mask: 2 })
    );
}

#[test]
fn get_spawn_lookup() {
    let with_spawn = node(
        "R",
        NodeKind::Plain,
        0,
        0,
        vec![node(
            "main",
            NodeKind::Plain,
            0,
            0,
            vec![node("spawn", NodeKind::Plain, 0, 0, vec![])],
        )],
    );
    let floor = Floor::new();
    let found = floor.get_spawn(&with_spawn);
    match found {
        Ok(n) => assert_eq!(n.name, "spawn"),
        Err(_) => panic!("spawn point should be found"),
    }
    let without = sample_tree();
    assert!(matches!(
        floor.get_spawn(&without),
        Err(FloorError::MissingConventionalChild)
    ));
}

#[test]
fn class_label() {
    let floor = Floor::new();
    assert_eq!(floor.get_class(), "Floor");
}
