use blitz_dom::{
    Attribute, BaseDocument, DomEvent, DomEventData, SelectMode, option_is_disabled, option_label,
    option_value, select_mode, truthy_attr,
};

fn attr(name: &str, value: &str) -> Attribute {
    Attribute { name: name.to_string(), value: value.to_string() }
}

fn bool_attr(name: &str) -> Attribute {
    attr(name, "")
}

fn add_option(doc: &mut BaseDocument, parent: usize, attrs: Vec<Attribute>, label: &str) -> usize {
    let option = doc.create_element("option", attrs);
    let text = doc.create_text_node(label);
    doc.append_children(option, &[text]);
    doc.append_children(parent, &[option]);
    option
}

fn add_select(doc: &mut BaseDocument, attrs: Vec<Attribute>) -> usize {
    let root = doc.root_node().id;
    let select = doc.create_element("select", attrs);
    doc.append_children(root, &[select]);
    select
}

fn selected(doc: &BaseDocument, id: usize) -> bool {
    doc.get_node(id)
        .and_then(|n| n.element_data())
        .and_then(|e| e.option_data())
        .is_some_and(|d| d.selected)
}

/// A dropdown with options Apple, Banana (disabled), Cherry, Blueberry.
fn fruit_dropdown() -> (BaseDocument, usize, Vec<usize>) {
    let mut doc = BaseDocument::new();
    let select = add_select(&mut doc, vec![]);
    let a = add_option(&mut doc, select, vec![attr("value", "apple")], "Apple");
    let b = add_option(&mut doc, select, vec![attr("value", "banana"), bool_attr("disabled")], "Banana");
    let c = add_option(&mut doc, select, vec![attr("value", "cherry")], "Cherry");
    let d = add_option(&mut doc, select, vec![attr("value", "blueberry")], "Blueberry");
    doc.sync_select_control(select);
    (doc, select, vec![a, b, c, d])
}

fn fruit_listbox() -> (BaseDocument, usize, Vec<usize>) {
    let mut doc = BaseDocument::new();
    let select = add_select(&mut doc, vec![bool_attr("multiple")]);
    let a = add_option(&mut doc, select, vec![bool_attr("selected")], "Apple");
    let b = add_option(&mut doc, select, vec![], "Banana");
    let c = add_option(&mut doc, select, vec![bool_attr("selected")], "Cherry");
    doc.sync_select_control(select);
    (doc, select, vec![a, b, c])
}

#[test]
fn truthy_attr_reads_presence_and_value() {
    let e = blitz_dom::ElementData {
        name: "option".to_string(),
        attrs: vec![bool_attr("selected"), attr("a", "true"), attr("b", "false")],
        special_data: blitz_dom::SpecialElementData::Other,
    };
    assert_eq!(truthy_attr(&e, "selected"), Some(true));
    assert_eq!(truthy_attr(&e, "a"), Some(true));
    assert_eq!(truthy_attr(&e, "b"), Some(false));
    assert_eq!(truthy_attr(&e, "missing"), None);
}

#[test]
fn select_mode_from_multiple_and_size() {
    let mk = |attrs: Vec<Attribute>| blitz_dom::ElementData {
        name: "select".to_string(),
        attrs,
        special_data: blitz_dom::SpecialElementData::Other,
    };
    assert_eq!(select_mode(&mk(vec![])), SelectMode::Dropdown);
    assert_eq!(select_mode(&mk(vec![bool_attr("multiple")])), SelectMode::Listbox);
    assert_eq!(select_mode(&mk(vec![attr("size", "3")])), SelectMode::Listbox);
    assert_eq!(select_mode(&mk(vec![attr("size", "1")])), SelectMode::Dropdown);
    assert_eq!(select_mode(&mk(vec![attr("size", "many")])), SelectMode::Dropdown);
}

#[test]
fn dropdown_without_selection_picks_first_enabled() {
    let mut doc = BaseDocument::new();
    let select = add_select(&mut doc, vec![]);
    let a = add_option(&mut doc, select, vec![bool_attr("disabled")], "A");
    let b = add_option(&mut doc, select, vec![], "B");
    let c = add_option(&mut doc, select, vec![], "C");
    doc.sync_select_control(select);
    assert!(!selected(&doc, a));
    assert!(selected(&doc, b));
    assert!(!selected(&doc, c));
    assert_eq!(doc.select_active_index(select), Some(1));
    assert_eq!(doc.primary_select_value(select).as_deref(), Some("B"));
}

#[test]
fn dropdown_keeps_only_first_marked_option() {
    let mut doc = BaseDocument::new();
    let select = add_select(&mut doc, vec![]);
    let a = add_option(&mut doc, select, vec![], "A");
    let b = add_option(&mut doc, select, vec![bool_attr("selected")], "B");
    let c = add_option(&mut doc, select, vec![bool_attr("selected")], "C");
    doc.sync_select_control(select);
    assert!(!selected(&doc, a));
    assert!(selected(&doc, b));
    assert!(!selected(&doc, c));
}

#[test]
fn unmatched_controlled_value_falls_back_to_first_enabled() {
    let mut doc = BaseDocument::new();
    let select = add_select(&mut doc, vec![attr("value", "kiwi")]);
    let a = add_option(&mut doc, select, vec![attr("value", "apple")], "Apple");
    let b = add_option(&mut doc, select, vec![attr("value", "pear"), bool_attr("selected")], "Pear");
    doc.sync_select_control(select);
    assert!(selected(&doc, a));
    assert!(!selected(&doc, b));
}

#[test]
fn listbox_keeps_every_marked_option() {
    let (doc, select, ids) = fruit_listbox();
    assert!(selected(&doc, ids[0]));
    assert!(!selected(&doc, ids[1]));
    assert!(selected(&doc, ids[2]));
    assert_eq!(doc.selected_option_indices(select), vec![0, 2]);
    assert!(doc.select_is_multiple(select));
}

#[test]
fn visible_rows_follow_size_mode_and_count() {
    let (doc, select, _) = fruit_listbox();
    let rows = |d: &BaseDocument, s: usize| d.get_node(s).unwrap().element_data().unwrap().select_data().unwrap().visible_rows;
    assert_eq!(rows(&doc, select), 3);
    let (doc2, select2, _) = fruit_dropdown();
    assert_eq!(rows(&doc2, select2), 1);
    let mut doc3 = BaseDocument::new();
    let s3 = add_select(&mut doc3, vec![attr("size", "5")]);
    add_option(&mut doc3, s3, vec![], "only");
    doc3.sync_select_control(s3);
    assert_eq!(rows(&doc3, s3), 5);
    let popup = doc3.get_node(s3).unwrap().element_data().unwrap().select_data().unwrap().popup_rows;
    assert_eq!(popup, 1);
}

#[test]
fn sync_ignores_non_select_nodes() {
    let mut doc = BaseDocument::new();
    let root = doc.root_node().id;
    let div = doc.create_element("div", vec![]);
    doc.append_children(root, &[div]);
    add_option(&mut doc, div, vec![], "A");
    doc.sync_select_control(div);
    assert!(doc.get_node(div).unwrap().element_data().unwrap().select_data().is_none());
}

#[test]
fn sync_twice_gives_the_same_selection() {
    let (mut doc, select, ids) = fruit_dropdown();
    let before: Vec<bool> = ids.iter().map(|&id| selected(&doc, id)).collect();
    let active = doc.select_active_index(select);
    doc.sync_select_control(select);
    let after: Vec<bool> = ids.iter().map(|&id| selected(&doc, id)).collect();
    assert_eq!(before, after);
    assert_eq!(doc.select_active_index(select), active);
}

#[test]
fn option_text_and_attributes() {
    let mut doc = BaseDocument::new();
    let select = add_select(&mut doc, vec![]);
    let group = doc.create_element("optgroup", vec![bool_attr("disabled")]);
    doc.append_children(select, &[group]);
    let a = add_option(&mut doc, select, vec![attr("label", "Short")], "Long text");
    let b = add_option(&mut doc, group, vec![], "Grouped");
    assert_eq!(option_label(&doc, a), "Short");
    assert_eq!(option_value(&doc, a), "Long text");
    assert_eq!(option_value(&doc, b), "Grouped");
    assert!(!option_is_disabled(&doc, select, a));
    assert!(option_is_disabled(&doc, select, b));
    assert_eq!(doc.text_content(group), "Grouped");
}

#[test]
fn enclosing_select_walks_up() {
    let (doc, select, ids) = fruit_dropdown();
    let text = doc.get_node(ids[0]).unwrap().children[0];
    assert_eq!(doc.enclosing_select_id(text), Some(select));
    assert_eq!(doc.enclosing_select_id(select), Some(select));
    assert_eq!(doc.enclosing_select_id(0), None);
    assert_eq!(doc.enclosing_select_id(9999), None);
}

#[test]
fn enabled_index_bounds() {
    let (doc, select, _) = fruit_dropdown();
    assert_eq!(doc.first_enabled_select_index(select), Some(0));
    assert_eq!(doc.last_enabled_select_index(select), Some(3));
    let mut doc2 = BaseDocument::new();
    let s = add_select(&mut doc2, vec![]);
    add_option(&mut doc2, s, vec![bool_attr("disabled")], "x");
    add_option(&mut doc2, s, vec![], "y");
    add_option(&mut doc2, s, vec![bool_attr("disabled")], "z");
    doc2.sync_select_control(s);
    assert_eq!(doc2.first_enabled_select_index(s), Some(1));
    assert_eq!(doc2.last_enabled_select_index(s), Some(1));
}

#[test]
fn open_and_close_dropdown() {
    let (mut doc, select, _) = fruit_dropdown();
    doc.take_redraw_request();
    assert_eq!(doc.open_select_popup_id(), None);
    assert!(doc.open_select(select));
    assert_eq!(doc.open_select_popup_id(), Some(select));
    assert!(doc.changed_nodes.contains(&select));
    assert!(doc.take_redraw_request());
    assert!(!doc.take_redraw_request());
    assert!(doc.close_open_select());
    assert_eq!(doc.open_select_popup_id(), None);
    assert!(!doc.close_open_select());
}

#[test]
fn listbox_does_not_open() {
    let (mut doc, select, _) = fruit_listbox();
    assert!(!doc.open_select(select));
    assert_eq!(doc.open_select_popup_id(), None);
}

#[test]
fn set_active_skips_disabled_and_out_of_range() {
    let (mut doc, select, _) = fruit_dropdown();
    assert_eq!(doc.select_active_index(select), Some(0));
    assert!(!doc.set_select_active(select, 1));
    assert!(!doc.set_select_active(select, 10));
    assert!(doc.set_select_active(select, 2));
    assert_eq!(doc.select_active_index(select), Some(2));
    assert!(!doc.set_select_active(select, 2));
}

#[test]
fn move_active_skips_disabled_and_stops_at_ends() {
    let (mut doc, select, _) = fruit_dropdown();
    assert!(doc.move_select_active(select, 1));
    assert_eq!(doc.select_active_index(select), Some(2));
    assert!(doc.move_select_active(select, 1));
    assert_eq!(doc.select_active_index(select), Some(3));
    assert!(!doc.move_select_active(select, 1));
    assert_eq!(doc.select_active_index(select), Some(3));
    assert!(doc.move_select_active(select, -2));
    assert_eq!(doc.select_active_index(select), Some(0));
    assert!(!doc.move_select_active(select, -1));
}

#[test]
fn choosing_options_emits_input_and_change() {
    let (mut doc, select, ids) = fruit_dropdown();
    let mut events: Vec<DomEvent> = Vec::new();
    assert!(doc.set_select_indices(select, &[2], &mut events));
    assert!(!selected(&doc, ids[0]));
    assert!(selected(&doc, ids[2]));
    assert_eq!(doc.select_active_index(select), Some(2));
    assert_eq!(events.len(), 2);
    assert_eq!(events[0].target, select);
    match &events[0].data {
        DomEventData::Input(e) => assert_eq!(e.value, "cherry"),
        _ => panic!("expected an input event"),
    }
    match &events[1].data {
        DomEventData::Change(e) => assert_eq!(e.value, "cherry"),
        _ => panic!("expected a change event"),
    }
    assert!(!doc.set_select_indices(select, &[2], &mut events));
    assert_eq!(events.len(), 2);
}

#[test]
fn choosing_a_disabled_option_changes_nothing() {
    let (mut doc, select, ids) = fruit_dropdown();
    let mut events = Vec::new();
    assert!(doc.set_select_indices(select, &[0, 1], &mut events) == false);
    assert!(!selected(&doc, ids[1]));
    assert!(events.is_empty());
}

#[test]
fn activating_in_a_listbox_toggles() {
    let (mut doc, select, ids) = fruit_listbox();
    let mut events = Vec::new();
    assert!(doc.activate_select_index(select, 1, &mut events));
    assert_eq!(doc.selected_option_indices(select), vec![0, 1, 2]);
    assert!(doc.activate_select_index(select, 0, &mut events));
    assert_eq!(doc.selected_option_indices(select), vec![1, 2]);
    assert!(!selected(&doc, ids[0]));
    assert_eq!(events.len(), 4);
    assert_eq!(doc.select_active_index(select), Some(1));
}

#[test]
fn activating_in_a_dropdown_selects_one() {
    let (mut doc, select, ids) = fruit_dropdown();
    let mut events = Vec::new();
    assert!(doc.activate_select_index(select, 3, &mut events));
    assert!(selected(&doc, ids[3]));
    assert!(!selected(&doc, ids[0]));
    assert_eq!(doc.primary_select_value(select).as_deref(), Some("blueberry"));
}

#[test]
fn type_ahead_finds_next_match_ignoring_case() {
    let (mut doc, select, _) = fruit_dropdown();
    assert_eq!(doc.find_select_option_by_prefix(select, "c"), Some(2));
    assert_eq!(doc.find_select_option_by_prefix(select, "BL"), Some(3));
    assert_eq!(doc.find_select_option_by_prefix(select, "b"), Some(3));
    assert_eq!(doc.find_select_option_by_prefix(select, ""), None);
    assert_eq!(doc.find_select_option_by_prefix(select, "z"), None);
    assert!(doc.set_select_active(select, 3));
    assert_eq!(doc.find_select_option_by_prefix(select, "a"), Some(0));
}

#[test]
fn form_values_list_enabled_selected_options() {
    let (doc, select, _) = fruit_listbox();
    assert_eq!(
        doc.select_form_values(select),
        vec![
            ("".to_string(), "Apple".to_string()),
            ("".to_string(), "Cherry".to_string())
        ]
        .into_iter()
        .map(|(_, l)| (l.clone(), l))
        .collect::<Vec<_>>()
    );
}

#[test]
fn primary_value_prefers_selected_then_active() {
    let (mut doc, select, _) = fruit_listbox();
    assert_eq!(doc.primary_select_value(select).as_deref(), Some("Apple"));
    let mut events = Vec::new();
    doc.set_select_indices(select, &[], &mut events);
    assert!(doc.selected_option_indices(select).is_empty());
    assert_eq!(doc.primary_select_value(select).as_deref(), Some("Apple"));
    assert!(doc.set_select_active(select, 1));
    assert_eq!(doc.primary_select_value(select).as_deref(), Some("Banana"));
}

#[test]
fn activating_a_listbox_option_twice_restores_every_flag() {
    let (mut doc, select, ids) = fruit_listbox();
    let before: Vec<bool> = ids.iter().map(|&id| selected(&doc, id)).collect();
    let mut events = Vec::new();
    assert!(doc.activate_select_index(select, 2, &mut events));
    assert!(!selected(&doc, ids[2]));
    assert!(doc.activate_select_index(select, 2, &mut events));
    let after: Vec<bool> = ids.iter().map(|&id| selected(&doc, id)).collect();
    assert_eq!(before, after);
    assert_eq!(doc.selected_option_indices(select), vec![0, 2]);
}
