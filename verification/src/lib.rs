//! The form-control core of a web document engine: the document tree, the
//! state of `<select>` controls and how user actions change it, form
//! ownership, accessibility roles, and the ids of native popup menus.

mod config;
mod control_laws;
mod access;
mod dom;
mod form;
mod menu;
mod select;
mod select_laws;
mod sync_laws;
mod text;
mod tree;

pub use access::{AccessNodeInfo, AccessRole, AccessTree, element_role_of};
pub use config::Config;
pub use dom::{
    Attribute, BaseDocument, BlitzInputEvent, DomEvent, DomEventData, ElementData, DomNode, NodeData,
    OptionData, SelectData, SelectMode, SelectOption, SpecialElementData, option_node_selected,
};
pub use menu::{
    MenuEntry, NativeSelectMenuItem, escape_muda_menu_label, first_menu_choice, menu_id_prefix, menu_item_id,
    menu_item_index, native_menu_entries,
};
pub use select::{
    MoveOutcome, first_true, option_is_disabled, option_label, option_value, select_mode,
    slice_contains, truthy_attr,
};
pub use text::{parse_usize, push_char, push_decimal, starts_with, str_eq, to_lowercase};
