use floor_cache::agent::FloorAgent;
use floor_cache::path::NodePath;

fn path(segs: &[&str]) -> NodePath {
    let mut p = NodePath::root();
    for s in segs {
        p = p.child(&s.to_string());
    }
    p
}

#[test]
fn notify_with_explicit_target() {
    let agent = FloorAgent::new();
    let target = agent.notify(&path(&["A", "agent"]), Some(path(&["X", "Y"])));
    assert!(target.same_as(&path(&["X", "Y"])));
}

#[test]
fn notify_defaults_to_parent() {
    let agent = FloorAgent::new();
    let target = agent.notify(&path(&["A", "agent"]), None);
    assert!(target.same_as(&path(&["A"])));
}

#[test]
fn agent_class_label() {
    let agent = FloorAgent::new();
    assert_eq!(agent.get_class(), "FloorAgent");
}

#[test]
fn path_operations() {
    let p = path(&["a", "b", "c"]);
    assert_eq!(p.len(), 3);
    assert!(p.same_as(&path(&["a", "b", "c"])));
    assert!(!p.same_as(&path(&["a", "b"])));
    assert!(!p.same_as(&path(&["a", "b", "d"])));
    let parent = p.parent().expect("non-root path has a parent");
    assert!(parent.same_as(&path(&["a", "b"])));
    assert!(NodePath::root().parent().is_none());
    assert_eq!(NodePath::root().len(), 0);
    assert!(p.duplicate().same_as(&p));
}
