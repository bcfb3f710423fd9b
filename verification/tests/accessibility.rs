use accesskit::{NodeId, Role, TreeId};
use blitz_dom::{AccessRole, Attribute, BaseDocument};

fn attr(name: &str, value: &str) -> Attribute {
    Attribute { name: name.to_string(), value: value.to_string() }
}

fn sample() -> (BaseDocument, usize, usize, usize, usize) {
    let mut doc = BaseDocument::new();
    let root = doc.root_node().id;
    let heading = doc.create_element("h3", vec![]);
    let title = doc.create_text_node("Fruit");
    let select = doc.create_element("select", vec![]);
    let input = doc.create_element("input", vec![attr("type", "number")]);
    doc.append_children(root, &[heading, select, input]);
    doc.append_children(heading, &[title]);
    let a = doc.create_element("option", vec![]);
    let a_text = doc.create_text_node("Apple");
    doc.append_children(a, &[a_text]);
    doc.append_children(select, &[a]);
    doc.sync_select_control(select);
    (doc, heading, title, select, a)
}

#[test]
fn roles_follow_tags() {
    let (doc, heading, title, select, a) = sample();
    let tree = doc.accessibility_nodes();
    let role_of = |id: usize| tree.nodes.iter().find(|n| n.id == id as u64).unwrap().role;
    assert_eq!(role_of(0), AccessRole::Window);
    assert_eq!(role_of(heading), AccessRole::Heading);
    assert_eq!(role_of(title), AccessRole::TextRun);
    assert_eq!(role_of(select), AccessRole::ComboBox);
    assert_eq!(role_of(a), AccessRole::ListBoxOption);
    assert_eq!(role_of(select + 1), AccessRole::NumberInput);
}

#[test]
fn nodes_hang_off_their_parents() {
    let (doc, heading, title, select, a) = sample();
    let tree = doc.accessibility_nodes();
    assert_eq!(tree.window_children, vec![0]);
    assert_eq!(tree.focus, u64::MAX);
    let info = |id: usize| tree.nodes.iter().find(|n| n.id == id as u64).unwrap();
    assert_eq!(info(heading).children, vec![title as u64]);
    assert_eq!(info(heading).labelled_by, vec![title as u64]);
    assert_eq!(info(select).children, vec![a as u64]);
    assert_eq!(info(title).value.as_deref(), Some("Fruit"));
    assert_eq!(info(select).value.as_deref(), Some("Apple"));
    assert_eq!(info(select).active_descendant, Some(a as u64));
    assert!(info(a).selected);
    assert_eq!(info(select).html_tag.as_deref(), Some("select"));
    assert_eq!(tree.nodes.len(), doc.nodes.len());
}

#[test]
fn open_dropdown_is_expanded() {
    let (mut doc, _, _, select, _) = sample();
    assert!(doc.open_select(select));
    let tree = doc.accessibility_nodes();
    let info = tree.nodes.iter().find(|n| n.id == select as u64).unwrap();
    assert!(info.expanded);
}

#[test]
fn tree_update_holds_every_node_and_the_window() {
    let (mut doc, heading, _, select, _) = sample();
    doc.focus_node_id = Some(select);
    let update = doc.build_accessibility_tree();
    assert_eq!(update.nodes.len(), doc.nodes.len() + 1);
    assert_eq!(update.focus, NodeId(select as u64));
    assert_eq!(update.tree.as_ref().unwrap().root, NodeId(u64::MAX));
    let (_, window) = update.nodes.last().unwrap();
    assert_eq!(window.role(), Role::Window);
    assert_eq!(window.children(), &[NodeId(0)]);
    let (_, h) = update.nodes.iter().find(|(id, _)| *id == NodeId(heading as u64)).unwrap();
    assert_eq!(h.role(), Role::Heading);
    assert_eq!(h.html_tag(), Some("h3"));
    let (_, s) = update.nodes.iter().find(|(id, _)| *id == NodeId(select as u64)).unwrap();
    assert_eq!(s.role(), Role::ComboBox);
    assert_eq!(s.value(), Some("Apple"));
}

#[test]
fn listbox_select_role() {
    let mut doc = BaseDocument::new();
    let root = doc.root_node().id;
    let select = doc.create_element("select", vec![attr("size", "4")]);
    doc.append_children(root, &[select]);
    let tree = doc.accessibility_nodes();
    let info = tree.nodes.iter().find(|n| n.id == select as u64).unwrap();
    assert_eq!(info.role, AccessRole::ListBox);
}

#[test]
fn form_owner_is_the_nearest_form() {
    let mut doc = BaseDocument::new();
    let root = doc.root_node().id;
    let form = doc.create_element("form", vec![]);
    let div = doc.create_element("div", vec![]);
    let select = doc.create_element("select", vec![attr("name", "s")]);
    let loose = doc.create_element("select", vec![]);
    doc.append_children(root, &[form, loose]);
    doc.append_children(form, &[div]);
    doc.append_children(div, &[select]);
    doc.reset_form_owner(select);
    doc.reset_form_owner(loose);
    assert_eq!(doc.controls_to_form.get(&select), Some(&form));
    assert_eq!(doc.controls_to_form.get(&loose), None);
    assert!(doc.form_event_values(loose).is_empty());
}

#[test]
fn tree_update_nodes_carry_state_and_labels() {
    let (mut doc, heading, title, select, a) = sample();
    assert!(doc.open_select(select));
    let update = doc.build_accessibility_tree();
    assert_eq!(update.focus, NodeId(u64::MAX));
    assert_eq!(update.tree_id, TreeId::ROOT);
    let info = update.tree.as_ref().unwrap();
    assert_eq!(info.root, NodeId(u64::MAX));
    assert_eq!(info.toolkit_name, None);
    assert_eq!(info.toolkit_version, None);
    let node = |id: usize| &update.nodes.iter().find(|(n, _)| *n == NodeId(id as u64)).unwrap().1;
    assert_eq!(node(heading).children(), &[NodeId(title as u64)]);
    assert_eq!(node(heading).labelled_by(), &[NodeId(title as u64)]);
    assert_eq!(node(heading).is_expanded(), None);
    assert_eq!(node(select).is_expanded(), Some(true));
    assert_eq!(node(select).active_descendant(), Some(NodeId(a as u64)));
    assert_eq!(node(select).children(), &[NodeId(a as u64)]);
    assert_eq!(node(a).is_selected(), Some(true));
    assert_eq!(node(a).html_tag(), Some("option"));
    assert!(!node(a).is_disabled());
    assert_eq!(node(title).html_tag(), None);
    assert_eq!(node(title).value(), Some("Fruit"));
    assert_eq!(node(0).role(), Role::Window);
    assert_eq!(node(0).html_tag(), None);
}
