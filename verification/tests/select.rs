use blitz_dom::{Attribute, BaseDocument};

fn attr(name: &str, value: &str) -> Attribute {
    Attribute {
        name: name.to_string(),
        value: value.to_string(),
    }
}

fn bool_attr(name: &str) -> Attribute {
    attr(name, "")
}

fn append_option(
    doc: &mut BaseDocument,
    parent_id: usize,
    attrs: Vec<Attribute>,
    label: &str,
) -> usize {
    let option_id = doc.create_element("option", attrs);
    let text_id = doc.create_text_node(label);
    doc.append_children(option_id, &[text_id]);
    doc.append_children(parent_id, &[option_id]);
    option_id
}

fn is_selected(document: &BaseDocument, id: usize) -> bool {
    document
        .get_node(id)
        .and_then(|node| node.element_data())
        .and_then(|element| element.option_data())
        .is_some_and(|data| data.selected)
}

#[test]
fn sync_select_control_prefers_controlled_value() {
    let mut document = BaseDocument::new();
    let root_id = document.root_node().id;

    let select_id = {
        let select_id = document.create_element("select", vec![attr("value", "banana")]);
        document.append_children(root_id, &[select_id]);
        select_id
    };

    let first_option = append_option(
        &mut document,
        select_id,
        vec![attr("value", "apple"), bool_attr("selected")],
        "Apple",
    );
    let second_option = append_option(
        &mut document,
        select_id,
        vec![attr("value", "banana")],
        "Banana",
    );

    document.sync_select_control(select_id);

    let first_selected = is_selected(&document, first_option);
    let second_selected = is_selected(&document, second_option);

    assert!(!first_selected);
    assert!(second_selected);
    assert_eq!(
        document.primary_select_value(select_id).as_deref(),
        Some("banana")
    );
}

#[test]
fn form_event_values_include_selected_enabled_options() {
    let mut document = BaseDocument::new();
    let root_id = document.root_node().id;

    let (form_id, select_id, disabled_group_id) = {
        let form_id = document.create_element("form", vec![attr("id", "form")]);
        let select_id = document.create_element(
            "select",
            vec![attr("name", "fruit"), bool_attr("multiple")],
        );
        let disabled_group_id =
            document.create_element("optgroup", vec![bool_attr("disabled")]);
        document.append_children(root_id, &[form_id]);
        document.append_children(form_id, &[select_id]);
        document.append_children(select_id, &[disabled_group_id]);
        (form_id, select_id, disabled_group_id)
    };

    append_option(
        &mut document,
        select_id,
        vec![attr("value", "apple"), bool_attr("selected")],
        "Apple",
    );
    append_option(
        &mut document,
        select_id,
        vec![
            attr("value", "pear"),
            bool_attr("selected"),
            bool_attr("disabled"),
        ],
        "Pear",
    );
    append_option(
        &mut document,
        disabled_group_id,
        vec![attr("value", "plum"), bool_attr("selected")],
        "Plum",
    );

    document.sync_select_control(select_id);
    document.reset_form_owner(select_id);

    let values = document.form_event_values(select_id);

    assert_eq!(form_id, document.controls_to_form[&select_id]);
    assert_eq!(values, vec![(String::from("fruit"), String::from("apple"))]);
}
