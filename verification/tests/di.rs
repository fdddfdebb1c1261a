use dicontext::di_context::DiContext;
use dicontext::di_context::ReRegistration;
use dicontext::di_multi_registration::DiMultiRegistration;
use dicontext::di_registration::DiRegistration;
use dicontext::host_tree::HostTree;
use dicontext::registry::DiRegistry;

fn s(t: &str) -> String {
    t.to_string()
}

/// A three-level host tree: root 1, child 2, grandchild 3.
fn small_tree() -> HostTree {
    let mut tree = HostTree::new();
    tree.add_node(1, None, s("Root"), None);
    tree.add_node(2, Some(1), s("Branch"), None);
    tree.add_node(3, Some(2), s("Leaf"), None);
    tree
}

#[test]
fn register_overwrites_same_key() {
    let mut reg = DiRegistry::new();
    let c = reg.create_context(s(""), Vec::new(), Vec::new());
    reg.register_with_type(c, 11, s("Svc"), s("main"));
    reg.register_with_type(c, 22, s("Svc"), s("main"));
    assert_eq!(reg.try_get_registered_node_with_id(c, &s("Svc"), &s("main")), Some(22));
}

#[test]
fn local_shadows_ancestor() {
    let tree = small_tree();
    let mut reg = DiRegistry::new();
    let a = reg.create_context(s(""), Vec::new(), Vec::new());
    let c = reg.create_context(s(""), Vec::new(), Vec::new());
    reg.attach(&tree, a, 1);
    reg.attach(&tree, c, 2);
    reg.register_with_type(a, 100, s("Svc"), s(""));
    reg.register_with_type(c, 200, s("Svc"), s(""));
    assert_eq!(reg.try_get_registered_node_with_id(c, &s("Svc"), &s("")), Some(200));
    assert_eq!(reg.try_get_registered_node_with_id(a, &s("Svc"), &s("")), Some(100));
}

#[test]
fn lookup_falls_through_to_ancestor() {
    let tree = small_tree();
    let mut reg = DiRegistry::new();
    let a = reg.create_context(s(""), Vec::new(), Vec::new());
    let c = reg.create_context(s(""), Vec::new(), Vec::new());
    reg.attach(&tree, a, 1);
    reg.attach(&tree, c, 2);
    reg.register_with_type(a, 100, s("Svc"), s(""));
    assert_eq!(reg.try_get_registered_node_with_id(c, &s("Svc"), &s("")), Some(100));
}

#[test]
fn reregistration_makes_child_visible() {
    let tree = small_tree();
    let mut reg = DiRegistry::new();
    let p = reg.create_context(s(""), Vec::new(), Vec::new());
    let decls = vec![ReRegistration { ty_name: s("Svc"), id: s("main") }];
    let d = reg.create_context(s(""), decls, Vec::new());
    reg.attach(&tree, p, 2);
    reg.attach(&tree, d, 3);
    reg.register_with_type(d, 42, s("Svc"), s("main"));
    assert_eq!(reg.try_get_registered_node_with_id(p, &s("Svc"), &s("main")), Some(42));
}

#[test]
fn lookup_bounce_terminates_not_found() {
    let tree = small_tree();
    let mut reg = DiRegistry::new();
    let p = reg.create_context(s(""), Vec::new(), Vec::new());
    let decls = vec![ReRegistration { ty_name: s("Svc"), id: s("main") }];
    let d = reg.create_context(s(""), decls, Vec::new());
    reg.attach(&tree, p, 2);
    reg.attach(&tree, d, 3);
    // the child declares the key but never registers anything under it:
    // its lookup asks the parent, the parent must not re-descend, and the
    // whole search reports a miss
    assert_eq!(reg.try_get_registered_node_with_id(d, &s("Svc"), &s("main")), None);
    assert_eq!(reg.try_get_registered_node_with_id(p, &s("Svc"), &s("main")), None);
}

#[test]
fn collect_all_orders_local_before_ancestor() {
    let tree = small_tree();
    let mut reg = DiRegistry::new();
    let a = reg.create_context(s(""), Vec::new(), Vec::new());
    let c = reg.create_context(s(""), Vec::new(), Vec::new());
    reg.attach(&tree, a, 1);
    reg.attach(&tree, c, 2);
    reg.multiregister(c, 10, s("F"));
    reg.multiregister(c, 11, s("F"));
    reg.multiregister(a, 12, s("F"));
    assert_eq!(reg.get_all(c, &s("F")), vec![10, 11, 12]);
    assert_eq!(reg.get_all(a, &s("F")), vec![12]);
}

#[test]
fn multiregistration_keeps_duplicates_and_order() {
    let mut reg = DiRegistry::new();
    let c = reg.create_context(s(""), Vec::new(), Vec::new());
    reg.multiregister(c, 5, s("F"));
    reg.multiregister(c, 5, s("F"));
    reg.multiregister(c, 6, s("F"));
    assert_eq!(reg.get_all(c, &s("F")), vec![5, 5, 6]);
}

#[test]
fn nearest_exclude_self_skips_own_context() {
    let tree = small_tree();
    let mut reg = DiRegistry::new();
    let a = reg.create_context(s(""), Vec::new(), Vec::new());
    let c = reg.create_context(s(""), Vec::new(), Vec::new());
    reg.attach(&tree, a, 1);
    reg.attach(&tree, c, 2);
    assert_eq!(reg.get_nearest(&tree, 2), Some(c));
    assert_eq!(reg.get_nearest_exclude_self(&tree, 2), Some(a));
    assert_eq!(reg.get_nearest_to_node(&tree, 2), Some(c));
    assert_eq!(reg.get_nearest_to_node_exclude_self(&tree, 2), Some(a));
}

#[test]
fn nearest_walks_multiple_levels() {
    let mut tree = HostTree::new();
    tree.add_node(1, None, s("Root"), None);
    tree.add_node(2, Some(1), s("A"), None);
    tree.add_node(3, Some(2), s("B"), None);
    tree.add_node(4, Some(3), s("C"), None);
    let mut reg = DiRegistry::new();
    let r = reg.create_context(s(""), Vec::new(), Vec::new());
    reg.attach(&tree, r, 1);
    assert_eq!(reg.get_nearest(&tree, 4), Some(r));
    assert_eq!(reg.get_context(4), None);
    assert_eq!(reg.get_node_context(1), Some(r));
}

#[test]
fn reattach_resolves_parent_from_current_state() {
    let mut tree = HostTree::new();
    tree.add_node(1, None, s("Root"), None);
    tree.add_node(2, Some(1), s("Left"), None);
    tree.add_node(3, Some(1), s("Right"), None);
    tree.add_node(4, Some(2), s("UnderLeft"), None);
    tree.add_node(5, Some(3), s("UnderRight"), None);
    let mut reg = DiRegistry::new();
    let left = reg.create_context(s(""), Vec::new(), Vec::new());
    let right = reg.create_context(s(""), Vec::new(), Vec::new());
    let c = reg.create_context(s(""), Vec::new(), Vec::new());
    reg.attach(&tree, left, 2);
    reg.attach(&tree, right, 3);
    reg.attach(&tree, c, 4);
    assert_eq!(reg.parent_context_of(c), Some(left));
    reg.detach(c);
    assert!(!reg.is_attached(c));
    reg.attach(&tree, c, 5);
    // the parent is re-resolved from the current tree state, never reused
    assert_eq!(reg.parent_context_of(c), Some(right));
    reg.register_with_type(right, 9, s("Svc"), s(""));
    assert_eq!(reg.try_get_registered_node_with_id(c, &s("Svc"), &s("")), Some(9));
}

#[test]
fn detached_child_no_longer_collected() {
    let tree = small_tree();
    let mut reg = DiRegistry::new();
    let r = reg.create_context(s(""), Vec::new(), Vec::new());
    let c = reg.create_context(s(""), Vec::new(), vec![s("Sensor")]);
    reg.attach(&tree, r, 1);
    reg.attach(&tree, c, 2);
    reg.multiregister(c, 77, s("Sensor"));
    assert_eq!(reg.get_all(r, &s("Sensor")), vec![77]);
    reg.detach(c);
    // the forwarding entry is cleaned up on detach: no stale result
    assert_eq!(reg.get_all(r, &s("Sensor")), Vec::<u64>::new());
}

#[test]
fn reregistered_family_visible_from_parent() {
    let tree = small_tree();
    let mut reg = DiRegistry::new();
    let p = reg.create_context(s(""), Vec::new(), Vec::new());
    let d = reg.create_context(s(""), Vec::new(), vec![s("F")]);
    reg.attach(&tree, p, 2);
    reg.attach(&tree, d, 3);
    reg.multiregister(d, 31, s("F"));
    reg.multiregister(p, 30, s("F"));
    // the parent's own list first, then the forwarded child's
    assert_eq!(reg.get_all(p, &s("F")), vec![30, 31]);
}

#[test]
fn required_lookup_returns_bound_node() {
    let mut reg = DiRegistry::new();
    let c = reg.create_context(s(""), Vec::new(), Vec::new());
    reg.register_with_type(c, 7, s("Svc"), s(""));
    assert_eq!(reg.get_registered_node_with_id(c, &s("Svc"), &s("")), 7);
    assert_eq!(reg.get_registered_node(c, &s("Svc")), 7);
    assert_eq!(reg.try_get_registered_node(c, &s("Svc")), Some(7));
}

#[test]
fn registration_entry_point_with_explicit_type() {
    let tree = small_tree();
    let mut reg = DiRegistry::new();
    let a = reg.create_context(s(""), Vec::new(), Vec::new());
    reg.attach(&tree, a, 1);
    DiRegistration::register(&mut reg, &tree, 3, &s("Svc"), &s("x"), false);
    assert_eq!(reg.try_get_registered_node_with_id(a, &s("Svc"), &s("x")), Some(3));
}

#[test]
fn registration_entry_point_auto_name_uses_capability() {
    let mut tree = HostTree::new();
    tree.add_node(1, None, s("Root"), None);
    tree.add_node(2, Some(1), s("PlainClass"), None);
    tree.add_node(3, Some(1), s("OtherClass"), Some(s("CustomName")));
    let mut reg = DiRegistry::new();
    let a = reg.create_context(s(""), Vec::new(), Vec::new());
    reg.attach(&tree, a, 1);
    // empty type name: ask the node; one falls back to its class name, the
    // other exposes the custom naming capability
    DiRegistration::register(&mut reg, &tree, 2, &s(""), &s(""), false);
    DiRegistration::register(&mut reg, &tree, 3, &s(""), &s(""), false);
    assert_eq!(reg.try_get_registered_node_with_id(a, &s("PlainClass"), &s("")), Some(2));
    assert_eq!(reg.try_get_registered_node_with_id(a, &s("CustomName"), &s("")), Some(3));
    assert_eq!(reg.try_get_registered_node_with_id(a, &s("OtherClass"), &s("")), None);
    DiRegistration::register_auto_type(&mut reg, &tree, 2, &s("alt"), false);
    assert_eq!(reg.try_get_registered_node_with_id(a, &s("PlainClass"), &s("alt")), Some(2));
}

#[test]
fn registration_into_own_context() {
    let tree = small_tree();
    let mut reg = DiRegistry::new();
    let a = reg.create_context(s(""), Vec::new(), Vec::new());
    let c = reg.create_context(s(""), Vec::new(), Vec::new());
    reg.attach(&tree, a, 1);
    reg.attach(&tree, c, 2);
    // node 2 anchors context c: with exclude-self the registration lands in
    // the ancestor, with own-context it lands in c
    DiRegistration::register(&mut reg, &tree, 2, &s("Up"), &s(""), false);
    DiRegistration::register(&mut reg, &tree, 2, &s("Own"), &s(""), true);
    assert_eq!(reg.try_get_registered_node_with_id(a, &s("Up"), &s("")), Some(2));
    assert_eq!(reg.try_get_registered_node_with_id(c, &s("Own"), &s("")), Some(2));
    // without a re-registration declaration the ancestor cannot see it
    assert_eq!(reg.try_get_registered_node_with_id(a, &s("Own"), &s("")), None);
}

#[test]
fn missing_context_registration_skipped() {
    let mut tree = HostTree::new();
    tree.add_node(1, None, s("Root"), None);
    tree.add_node(2, Some(1), s("Branch"), None);
    let mut reg = DiRegistry::new();
    // no context anywhere in the parentage: the attempt is skipped softly
    DiRegistration::register(&mut reg, &tree, 2, &s("Svc"), &s(""), false);
    DiMultiRegistration::multi_register(&mut reg, &tree, 2, &s("F"), false);
    assert_eq!(reg.get_context(1), None);
    assert_eq!(reg.get_context(2), None);
    assert_eq!(reg.get_nearest(&tree, 2), None);
}

#[test]
fn multiregistration_entry_point_class_fallback() {
    let mut tree = HostTree::new();
    tree.add_node(1, None, s("Root"), None);
    tree.add_node(2, Some(1), s("SensorNode"), None);
    let mut reg = DiRegistry::new();
    let a = reg.create_context(s(""), Vec::new(), Vec::new());
    reg.attach(&tree, a, 1);
    DiMultiRegistration::multi_register(&mut reg, &tree, 2, &s(""), false);
    DiMultiRegistration::multi_register(&mut reg, &tree, 2, &s("F"), false);
    assert_eq!(reg.get_all(a, &s("SensorNode")), vec![2]);
    assert_eq!(reg.get_all(a, &s("F")), vec![2]);
}

#[test]
fn marker_enter_tree_registers_parent() {
    let tree = small_tree();
    let mut reg = DiRegistry::new();
    let a = reg.create_context(s(""), Vec::new(), Vec::new());
    reg.attach(&tree, a, 1);
    let mut marker = DiRegistration::init();
    marker.ty_name = s("Svc");
    // the marker sits at node 3; entering the tree registers its parent,
    // node 2, into the nearest context above
    marker.enter_tree(&mut reg, &tree, 3);
    assert_eq!(reg.try_get_registered_node_with_id(a, &s("Svc"), &s("")), Some(2));
    let mut multi_marker = DiMultiRegistration::init();
    multi_marker.ty_name = s("F");
    multi_marker.enter_tree(&mut reg, &tree, 3);
    assert_eq!(reg.get_all(a, &s("F")), vec![2]);
}

#[test]
fn detach_then_lookup_from_orphan() {
    let tree = small_tree();
    let mut reg = DiRegistry::new();
    let a = reg.create_context(s(""), Vec::new(), Vec::new());
    let c = reg.create_context(s(""), Vec::new(), Vec::new());
    reg.attach(&tree, a, 1);
    reg.attach(&tree, c, 2);
    reg.register_with_type(c, 5, s("Svc"), s(""));
    reg.detach(c);
    // a detached context keeps its own registrations
    assert_eq!(reg.try_get_registered_node_with_id(c, &s("Svc"), &s("")), Some(5));
    // and its anchor no longer resolves to it
    assert_eq!(reg.get_context(1), Some(a));
    assert_eq!(reg.get_context(2), None);
}

#[test]
fn host_facing_aliases_register_like_their_targets() {
    let mut tree = HostTree::new();
    tree.add_node(1, None, s("Root"), None);
    tree.add_node(2, Some(1), s("Widget"), None);
    let mut reg = DiRegistry::new();
    let a = reg.create_context(s(""), Vec::new(), Vec::new());
    reg.attach(&tree, a, 1);
    reg.register_with_type(a, 2, s("Svc"), s(""));
    // mutate a context through the registry surface, then read it back
    assert_eq!(reg.try_get_registered_node_with_id(a, &s("Svc"), &s("")), Some(2));
    reg.register(&tree, a, 2, s("byname"));
    assert_eq!(reg.try_get_registered_node_with_id(a, &s("Widget"), &s("byname")), Some(2));
    reg.multiregister_auto_type(&tree, a, 2);
    assert_eq!(reg.get_all(a, &s("Widget")), vec![2]);
}

#[test]
fn standalone_context_aliases() {
    let mut tree = HostTree::new();
    tree.add_node(1, None, s("Gadget"), None);
    let mut c = DiContext::init(s(""), Vec::new(), Vec::new());
    c.register_node_of_type_node(4, s("Svc"), s("k"));
    c.register_node(&tree, 1, s(""));
    assert_eq!(c.registered_nodes.len(), 2);
    assert_eq!(c.registered_nodes[0].0.ty_name, s("Svc"));
    assert_eq!(c.registered_nodes[0].0.id, s("k"));
    assert_eq!(c.registered_nodes[0].1, 4);
    // the auto-named registration uses the node's class name
    assert_eq!(c.registered_nodes[1].0.ty_name, s("Gadget"));
    assert_eq!(c.registered_nodes[1].1, 1);
}

#[test]
fn collect_does_not_duplicate_through_parent() {
    let tree = small_tree();
    let mut reg = DiRegistry::new();
    let p = reg.create_context(s(""), Vec::new(), Vec::new());
    let d = reg.create_context(s(""), Vec::new(), vec![s("F")]);
    reg.attach(&tree, p, 2);
    reg.attach(&tree, d, 3);
    reg.multiregister(d, 50, s("F"));
    // collecting from the child delegates to the parent, whose forwarding
    // list names the child again; the ignore entry stops the bounce, so
    // the child's node appears exactly once
    assert_eq!(reg.get_all(d, &s("F")), vec![50]);
    assert_eq!(reg.get_all(p, &s("F")), vec![50]);
}
