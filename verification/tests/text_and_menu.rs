use blitz_dom::{
    Config, NativeSelectMenuItem, escape_muda_menu_label, first_menu_choice, menu_id_prefix, menu_item_id,
    menu_item_index, native_menu_entries, parse_usize, push_char, push_decimal, starts_with,
    str_eq, to_lowercase,
};

#[test]
fn parse_usize_accepts_digits_with_optional_plus() {
    assert_eq!(parse_usize("12"), Some(12));
    assert_eq!(parse_usize("+7"), Some(7));
    assert_eq!(parse_usize("007"), Some(7));
    assert_eq!(parse_usize("0"), Some(0));
}

#[test]
fn parse_usize_rejects_malformed_input() {
    assert_eq!(parse_usize(""), None);
    assert_eq!(parse_usize("+"), None);
    assert_eq!(parse_usize("-1"), None);
    assert_eq!(parse_usize("1a"), None);
    assert_eq!(parse_usize(" 1"), None);
    assert_eq!(parse_usize("٣"), None);
}

#[test]
fn parse_usize_agrees_with_std_at_the_limit() {
    let max = usize::MAX.to_string();
    assert_eq!(parse_usize(&max), Some(usize::MAX));
    let over = format!("{}0", usize::MAX);
    assert_eq!(parse_usize(&over), None);
    for s in ["42", "+0", "-0", "", "99999999999999999999999", "12x"] {
        assert_eq!(parse_usize(s), s.parse::<usize>().ok());
    }
}

#[test]
fn decimal_spelling_reads_back() {
    for n in [0usize, 7, 10, 99, 12345, usize::MAX] {
        let mut s = String::new();
        push_decimal(&mut s, n);
        assert_eq!(s, n.to_string());
        assert_eq!(parse_usize(&s), Some(n));
    }
}

#[test]
fn push_char_appends() {
    let mut s = String::from("ab");
    push_char(&mut s, 'ç');
    assert_eq!(s, "abç");
}

#[test]
fn string_comparisons() {
    assert!(str_eq("select", "select"));
    assert!(!str_eq("select", "selects"));
    assert!(!str_eq("a", "b"));
    assert!(starts_with("banana", "ban"));
    assert!(starts_with("banana", ""));
    assert!(!starts_with("ban", "banana"));
    assert!(!starts_with("banana", "bx"));
}

#[test]
fn lowercase_follows_unicode() {
    assert_eq!(to_lowercase("ÀBC"), "àbc");
    assert_eq!(to_lowercase("already"), "already");
}

#[test]
fn menu_labels_double_ampersands() {
    assert_eq!(escape_muda_menu_label("Salt & Pepper"), "Salt && Pepper");
    assert_eq!(escape_muda_menu_label("&&"), "&&&&");
    assert_eq!(escape_muda_menu_label(""), "");
    assert_eq!(escape_muda_menu_label("plain"), "plain");
}

#[test]
fn menu_ids_name_select_and_index() {
    assert_eq!(menu_id_prefix(3), "blitz-select:3:");
    assert_eq!(menu_item_id(3, 12), "blitz-select:3:12");
    assert_eq!(menu_item_index("blitz-select:3:12", 3), Some(12));
    assert_eq!(menu_item_index("blitz-select:3:12", 4), None);
    assert_eq!(menu_item_index("blitz-select:3:x", 3), None);
    assert_eq!(menu_item_index("blitz-select:3:", 3), None);
    assert_eq!(menu_item_index("other", 3), None);
}

#[test]
fn menu_ids_round_trip() {
    for select_id in [0usize, 1, 42, 1000] {
        for index in [0usize, 1, 9, 10, 123] {
            let id = menu_item_id(select_id, index);
            assert_eq!(menu_item_index(&id, select_id), Some(index));
        }
    }
}

#[test]
fn native_menu_entries_mark_state() {
    let items = vec![
        NativeSelectMenuItem { label: "A & B".to_string(), disabled: false },
        NativeSelectMenuItem { label: "C".to_string(), disabled: true },
    ];
    let entries = native_menu_entries(5, &items, Some(1));
    assert_eq!(entries.len(), 2);
    assert_eq!(entries[0].id, "blitz-select:5:0");
    assert_eq!(entries[0].label, "A && B");
    assert!(entries[0].enabled);
    assert!(!entries[0].checked);
    assert_eq!(entries[1].id, "blitz-select:5:1");
    assert!(!entries[1].enabled);
    assert!(entries[1].checked);
    let none = native_menu_entries(5, &items, None);
    assert!(!none[0].checked && !none[1].checked);
}

#[test]
fn default_config_is_empty() {
    let config = Config::default();
    assert!(config.stylesheets.is_empty());
    assert!(config.base_url.is_none());
}

#[test]
fn collapsing_doubled_ampersands_undoes_the_escape() {
    for label in ["Salt & Pepper", "&&", "&", "a&&&b", "", "plain", "&x&"] {
        assert_eq!(escape_muda_menu_label(label).replace("&&", "&"), label);
    }
}

#[test]
fn first_menu_choice_takes_the_first_id_of_the_select() {
    let ids = vec![
        "other".to_string(),
        "blitz-select:7:2".to_string(),
        "blitz-select:4:1".to_string(),
        "blitz-select:4:3".to_string(),
    ];
    assert_eq!(first_menu_choice(&ids, 4), Some(1));
    assert_eq!(first_menu_choice(&ids, 7), Some(2));
    assert_eq!(first_menu_choice(&ids, 5), None);
    assert_eq!(first_menu_choice(&Vec::new(), 4), None);
}
