//! The accessibility tree of a document: the role and state each node
//! exposes to assistive technology, and how nodes nest.

use vstd::prelude::*;

use accesskit::Node as AccessKitNode;
use accesskit::{NodeId, Role, TreeId, TreeInfo, TreeUpdate};

use crate::dom::{
    BaseDocument, ElementData, DomNode, NodeData, SelectMode, SpecialElementData, element_of,
    elem_attr, option_data_of, preorder, select_data_of, text_content,
};
use crate::select::{first_selected_pos, select_mode_spec};
use crate::text::str_eq;
use crate::tree::lemma_forest_preorder_nodup;

verus! {

/// The role a node plays for assistive technology.
#[derive(Clone, Copy, PartialEq, Eq, Structural, Debug)]
pub enum AccessRole {
    Window,
    Button,
    GenericContainer,
    Header,
    Heading,
    Paragraph,
    Section,
    ListBoxOption,
    ComboBox,
    ListBox,
    NumberInput,
    CheckBox,
    TextInput,
    TextRun,
    Unknown,
}

/// What a node exposes to assistive technology.
pub struct AccessNodeInfo {
    pub id: u64,
    pub role: AccessRole,
    pub html_tag: Option<String>,
    pub disabled: bool,
    pub active_descendant: Option<u64>,
    pub expanded: bool,
    pub value: Option<String>,
    pub selected: bool,
    /// Text nodes that label this node.
    pub labelled_by: Vec<u64>,
    pub children: Vec<u64>,
}

/// The accessibility tree: one entry per node reached from the root, in
/// document order, and what hangs off the window itself.
pub struct AccessTree {
    pub nodes: Vec<AccessNodeInfo>,
    pub window_children: Vec<u64>,
    pub window_labelled_by: Vec<u64>,
    pub focus: u64,
}

/// The id the window node has in the accessibility tree.
pub open spec fn window_id() -> u64 {
    0xffff_ffff_ffff_ffffu64
}

/// Whether `name` is a heading tag, `h1` to `h6`.
pub open spec fn is_heading_tag(name: Seq<char>) -> bool {
    name == "h1"@ || name == "h2"@ || name == "h3"@ || name == "h4"@ || name == "h5"@ || name == "h6"@
}

/// The role of an `<input>` of type `ty`.
pub open spec fn input_role(ty: Seq<char>) -> AccessRole {
    if ty == "number"@ {
        AccessRole::NumberInput
    } else if ty == "checkbox"@ {
        AccessRole::CheckBox
    } else {
        AccessRole::TextInput
    }
}

/// The role of a select: a list box or a combo box, by its select data when
/// it has some and by its attributes otherwise.
pub open spec fn select_role(e: ElementData) -> AccessRole {
    let mode = match e.special_data {
        SpecialElementData::Select(sd) => sd.mode,
        _ => select_mode_spec(e),
    };
    if mode == SelectMode::Dropdown {
        AccessRole::ComboBox
    } else {
        AccessRole::ListBox
    }
}

/// The role of element `e`, by its tag.
pub open spec fn element_role(e: ElementData) -> AccessRole {
    let name = e.name@;
    if name == "button"@ {
        AccessRole::Button
    } else if name == "div"@ {
        AccessRole::GenericContainer
    } else if name == "header"@ {
        AccessRole::Header
    } else if is_heading_tag(name) {
        AccessRole::Heading
    } else if name == "p"@ {
        AccessRole::Paragraph
    } else if name == "section"@ {
        AccessRole::Section
    } else if name == "option"@ {
        AccessRole::ListBoxOption
    } else if name == "select"@ {
        select_role(e)
    } else if name == "input"@ {
        input_role(
            match elem_attr(e, "type"@) {
                Some(t) => t,
                None => "text"@,
            },
        )
    } else {
        AccessRole::Unknown
    }
}

/// The role of `node`: the root is the window, then elements by tag and
/// text nodes as text runs.
pub open spec fn node_role(node: DomNode) -> AccessRole {
    if node.id == 0 {
        AccessRole::Window
    } else {
        match node.data {
            NodeData::Element(e) => element_role(e),
            NodeData::Text(_) => AccessRole::TextRun,
            _ => AccessRole::Unknown,
        }
    }
}

/// The value node `id` exposes: a select's first selected option's label, or
/// a text node's text.
pub open spec fn access_value(nodes: Seq<DomNode>, id: usize) -> Option<Seq<char>> {
    let node = nodes[id as int];
    if node.id == 0 {
        None
    } else {
        match node.data {
            NodeData::Element(_) => match select_data_of(node) {
                Some(sd) => match first_selected_pos(nodes, sd) {
                    Some(k) => Some(sd.options@[k as int].label@),
                    None => None,
                },
                None => None,
            },
            NodeData::Text(_) => Some(text_content(nodes, id, nodes.len())),
            _ => None,
        }
    }
}

/// The option a select exposes as its active descendant.
pub open spec fn access_active_descendant(node: DomNode) -> Option<u64> {
    if node.id == 0 {
        None
    } else {
        match select_data_of(node) {
            Some(sd) => match sd.active_index {
                Some(i) => if i < sd.options@.len() {
                    Some(sd.options@[i as int].node_id as u64)
                } else {
                    None
                },
                None => None,
            },
            None => None,
        }
    }
}

/// Whether the node is an element other than the root.
pub open spec fn is_plain_element(node: DomNode) -> bool {
    node.id != 0 && element_of(node) is Some
}

/// Whether `info` says what node `id` exposes (apart from its children and labels).
pub open spec fn info_matches(info: AccessNodeInfo, nodes: Seq<DomNode>, id: usize) -> bool {
    let node = nodes[id as int];
    &&& info.id == id as u64
    &&& info.role == node_role(node)
    &&& match info.html_tag {
        Some(t) => is_plain_element(node) && t@ == element_of(node)->0.name@,
        None => !is_plain_element(node),
    }
    &&& info.disabled == (is_plain_element(node) && node.element_disabled)
    &&& info.active_descendant == access_active_descendant(node)
    &&& info.expanded == (node.id != 0 && (select_data_of(node) matches Some(sd) && sd.mode
        == SelectMode::Dropdown && sd.open))
    &&& match info.value {
        Some(v) => access_value(nodes, id) == Some(v@),
        None => access_value(nodes, id) is None,
    }
    &&& info.selected == (node.id != 0 && (option_data_of(node) matches Some(o) && o.selected))
}

/// Where the `j`-th visited node hangs: its parent when that was visited
/// before it, else the window (`None`).
pub open spec fn attach_target(nodes: Seq<DomNode>, order: Seq<usize>, j: int) -> Option<usize> {
    match nodes[order[j] as int].parent {
        Some(p) => if order.subrange(0, j).contains(p) {
            Some(p)
        } else {
            None
        },
        None => None,
    }
}

/// The ids among the first `upto` visited nodes that hang off `target` (only
/// text nodes when `text_only`).
pub open spec fn attached(nodes: Seq<DomNode>, order: Seq<usize>, upto: int, target: Option<usize>, text_only: bool) -> Seq<u64>
    decreases upto,
{
    if upto <= 0 {
        Seq::empty()
    } else {
        let prev = attached(nodes, order, upto - 1, target, text_only);
        let j = upto - 1;
        if attach_target(nodes, order, j) == target && (!text_only || nodes[order[j] as int].data is Text) {
            prev.push(order[j] as u64)
        } else {
            prev
        }
    }
}

/// The order in which the accessibility tree visits nodes: document order from the root.
pub open spec fn access_order(doc: &BaseDocument) -> Seq<usize> {
    preorder(doc.nodes@, 0, doc.nodes@.len())
}

/// What an accessibility entry says of a node's state: its id; for an element
/// other than the root, its tag name and the element's disabled flag; an
/// open dropdown is expanded and a closed select is not; an option is
/// selected as its option data says; a text node's value is its text; and a
/// select's active option is its active descendant.
pub proof fn lemma_info_states(info: AccessNodeInfo, nodes: Seq<DomNode>, id: usize)
    requires
        id < nodes.len(),
        info_matches(info, nodes, id),
    ensures
        info.id == id as u64,
        nodes[id as int].id != 0 && element_of(nodes[id as int]) is Some ==> (info.html_tag matches Some(t) && t@
            == element_of(nodes[id as int])->0.name@),
        element_of(nodes[id as int]) is None ==> info.html_tag is None,
        nodes[id as int].id != 0 && element_of(nodes[id as int]) is Some ==> info.disabled
            == nodes[id as int].element_disabled,
        !nodes[id as int].element_disabled ==> !info.disabled,
        nodes[id as int].id != 0 && (select_data_of(nodes[id as int]) matches Some(sd) && sd.mode == SelectMode::Dropdown
            && sd.open) ==> info.expanded,
        (select_data_of(nodes[id as int]) matches Some(sd) && !sd.open) ==> !info.expanded,
        nodes[id as int].id != 0 && (option_data_of(nodes[id as int]) matches Some(o)) ==> info.selected
            == option_data_of(nodes[id as int])->0.selected,
        option_data_of(nodes[id as int]) is None ==> !info.selected,
        nodes[id as int].id != 0 && (nodes[id as int].data matches NodeData::Text(t)) ==> (info.value matches Some(v)
            && v@ == nodes[id as int].data->Text_0@),
        nodes[id as int].id != 0 && (select_data_of(nodes[id as int]) matches Some(sd) && sd.active_index matches Some(a)
            && a < sd.options@.len()) ==> info.active_descendant == Some(
            select_data_of(nodes[id as int])->0.options@[select_data_of(nodes[id as int])->0.active_index->0 as int].node_id
                as u64,
        ),
{
    let node = nodes[id as int];
    if node.id != 0 {
        match node.data {
            NodeData::Text(t) => {
                assert(text_content(nodes, id, nodes.len()) == t@);
            },
            _ => {},
        }
    }
}

/// The role each tag gives an element: `button` a button, `div` a generic
/// container, `header` a header, `h1` to `h6` a heading, `p` a paragraph,
/// `section` a section, `option` a list-box option, `select` a combo box
/// (dropdown) or list box, `input` a number input, checkbox or text input by
/// its `type`, and any other tag no known role.
pub proof fn lemma_element_roles(e: ElementData)
    ensures
        e.name@ == "button"@ ==> element_role(e) == AccessRole::Button,
        e.name@ == "div"@ ==> element_role(e) == AccessRole::GenericContainer,
        e.name@ == "header"@ ==> element_role(e) == AccessRole::Header,
        e.name@ == "h1"@ || e.name@ == "h2"@ || e.name@ == "h3"@ || e.name@ == "h4"@ || e.name@ == "h5"@ || e.name@
            == "h6"@ ==> element_role(e) == AccessRole::Heading,
        e.name@ == "p"@ ==> element_role(e) == AccessRole::Paragraph,
        e.name@ == "section"@ ==> element_role(e) == AccessRole::Section,
        e.name@ == "option"@ ==> element_role(e) == AccessRole::ListBoxOption,
        e.name@ == "select"@ ==> (element_role(e) == AccessRole::ComboBox || element_role(e) == AccessRole::ListBox),
        e.name@ == "select"@ && e.special_data is Select ==> (element_role(e) == AccessRole::ComboBox <==> e.special_data->Select_0.mode
            == SelectMode::Dropdown),
        e.name@ == "input"@ && elem_attr(e, "type"@) == Some("number"@) ==> element_role(e) == AccessRole::NumberInput,
        e.name@ == "input"@ && elem_attr(e, "type"@) == Some("checkbox"@) ==> element_role(e) == AccessRole::CheckBox,
        e.name@ == "input"@ && elem_attr(e, "type"@) is None ==> element_role(e) == AccessRole::TextInput,
        e.name@ == "input"@ ==> (element_role(e) == AccessRole::NumberInput || element_role(e) == AccessRole::CheckBox
            || element_role(e) == AccessRole::TextInput),
        !(e.name@ == "button"@ || e.name@ == "div"@ || e.name@ == "header"@ || e.name@ == "h1"@ || e.name@ == "h2"@
            || e.name@ == "h3"@ || e.name@ == "h4"@ || e.name@ == "h5"@ || e.name@ == "h6"@ || e.name@ == "p"@
            || e.name@ == "section"@ || e.name@ == "option"@ || e.name@ == "select"@ || e.name@ == "input"@)
            ==> element_role(e) == AccessRole::Unknown,
{
    reveal_strlit("button");
    reveal_strlit("div");
    reveal_strlit("header");
    reveal_strlit("h1");
    reveal_strlit("h2");
    reveal_strlit("h3");
    reveal_strlit("h4");
    reveal_strlit("h5");
    reveal_strlit("h6");
    reveal_strlit("p");
    reveal_strlit("section");
    reveal_strlit("option");
    reveal_strlit("select");
    reveal_strlit("input");
    reveal_strlit("number");
    reveal_strlit("checkbox");
    reveal_strlit("text");
    assert("button"@.len() == 6 && "div"@.len() == 3 && "header"@.len() == 6 && "h1"@.len() == 2 && "h2"@.len() == 2 && "h3"@.len() == 2 && "h4"@.len() == 2 && "h5"@.len() == 2 && "h6"@.len() == 2 && "p"@.len() == 1 && "section"@.len() == 7 && "option"@.len() == 6 && "select"@.len() == 6 && "input"@.len() == 5);
    assert("button"@[0] == 'b' && "header"@[0] == 'h' && "option"@[0] == 'o' && "select"@[0] == 's');
    assert("h1"@[1] == '1' && "h2"@[1] == '2' && "h3"@[1] == '3' && "h4"@[1] == '4' && "h5"@[1] == '5' && "h6"@[1] == '6');
    if e.name@ == "button"@ {
        assert(e.name@.len() != "div"@.len());
        assert(e.name@[0] != "header"@[0]);
        assert(e.name@.len() != "h1"@.len());
        assert(e.name@.len() != "h2"@.len());
        assert(e.name@.len() != "h3"@.len());
        assert(e.name@.len() != "h4"@.len());
        assert(e.name@.len() != "h5"@.len());
        assert(e.name@.len() != "h6"@.len());
        assert(e.name@.len() != "p"@.len());
        assert(e.name@.len() != "section"@.len());
        assert(e.name@[0] != "option"@[0]);
        assert(e.name@[0] != "select"@[0]);
        assert(e.name@.len() != "input"@.len());
    }
    if e.name@ == "div"@ {
        assert(e.name@.len() != "button"@.len());
        assert(e.name@.len() != "header"@.len());
        assert(e.name@.len() != "h1"@.len());
        assert(e.name@.len() != "h2"@.len());
        assert(e.name@.len() != "h3"@.len());
        assert(e.name@.len() != "h4"@.len());
        assert(e.name@.len() != "h5"@.len());
        assert(e.name@.len() != "h6"@.len());
        assert(e.name@.len() != "p"@.len());
        assert(e.name@.len() != "section"@.len());
        assert(e.name@.len() != "option"@.len());
        assert(e.name@.len() != "select"@.len());
        assert(e.name@.len() != "input"@.len());
    }
    if e.name@ == "header"@ {
        assert(e.name@[0] != "button"@[0]);
        assert(e.name@.len() != "div"@.len());
        assert(e.name@.len() != "h1"@.len());
        assert(e.name@.len() != "h2"@.len());
        assert(e.name@.len() != "h3"@.len());
        assert(e.name@.len() != "h4"@.len());
        assert(e.name@.len() != "h5"@.len());
        assert(e.name@.len() != "h6"@.len());
        assert(e.name@.len() != "p"@.len());
        assert(e.name@.len() != "section"@.len());
        assert(e.name@[0] != "option"@[0]);
        assert(e.name@[0] != "select"@[0]);
        assert(e.name@.len() != "input"@.len());
    }
    if e.name@ == "h1"@ {
        assert(e.name@.len() != "button"@.len());
        assert(e.name@.len() != "div"@.len());
        assert(e.name@.len() != "header"@.len());
        assert(e.name@[1] != "h2"@[1]);
        assert(e.name@[1] != "h3"@[1]);
        assert(e.name@[1] != "h4"@[1]);
        assert(e.name@[1] != "h5"@[1]);
        assert(e.name@[1] != "h6"@[1]);
        assert(e.name@.len() != "p"@.len());
        assert(e.name@.len() != "section"@.len());
        assert(e.name@.len() != "option"@.len());
        assert(e.name@.len() != "select"@.len());
        assert(e.name@.len() != "input"@.len());
    }
    if e.name@ == "h2"@ {
        assert(e.name@.len() != "button"@.len());
        assert(e.name@.len() != "div"@.len());
        assert(e.name@.len() != "header"@.len());
        assert(e.name@[1] != "h1"@[1]);
        assert(e.name@[1] != "h3"@[1]);
        assert(e.name@[1] != "h4"@[1]);
        assert(e.name@[1] != "h5"@[1]);
        assert(e.name@[1] != "h6"@[1]);
        assert(e.name@.len() != "p"@.len());
        assert(e.name@.len() != "section"@.len());
        assert(e.name@.len() != "option"@.len());
        assert(e.name@.len() != "select"@.len());
        assert(e.name@.len() != "input"@.len());
    }
    if e.name@ == "h3"@ {
        assert(e.name@.len() != "button"@.len());
        assert(e.name@.len() != "div"@.len());
        assert(e.name@.len() != "header"@.len());
        assert(e.name@[1] != "h1"@[1]);
        assert(e.name@[1] != "h2"@[1]);
        assert(e.name@[1] != "h4"@[1]);
        assert(e.name@[1] != "h5"@[1]);
        assert(e.name@[1] != "h6"@[1]);
        assert(e.name@.len() != "p"@.len());
        assert(e.name@.len() != "section"@.len());
        assert(e.name@.len() != "option"@.len());
        assert(e.name@.len() != "select"@.len());
        assert(e.name@.len() != "input"@.len());
    }
    if e.name@ == "h4"@ {
        assert(e.name@.len() != "button"@.len());
        assert(e.name@.len() != "div"@.len());
        assert(e.name@.len() != "header"@.len());
        assert(e.name@[1] != "h1"@[1]);
        assert(e.name@[1] != "h2"@[1]);
        assert(e.name@[1] != "h3"@[1]);
        assert(e.name@[1] != "h5"@[1]);
        assert(e.name@[1] != "h6"@[1]);
        assert(e.name@.len() != "p"@.len());
        assert(e.name@.len() != "section"@.len());
        assert(e.name@.len() != "option"@.len());
        assert(e.name@.len() != "select"@.len());
        assert(e.name@.len() != "input"@.len());
    }
    if e.name@ == "h5"@ {
        assert(e.name@.len() != "button"@.len());
        assert(e.name@.len() != "div"@.len());
        assert(e.name@.len() != "header"@.len());
        assert(e.name@[1] != "h1"@[1]);
        assert(e.name@[1] != "h2"@[1]);
        assert(e.name@[1] != "h3"@[1]);
        assert(e.name@[1] != "h4"@[1]);
        assert(e.name@[1] != "h6"@[1]);
        assert(e.name@.len() != "p"@.len());
        assert(e.name@.len() != "section"@.len());
        assert(e.name@.len() != "option"@.len());
        assert(e.name@.len() != "select"@.len());
        assert(e.name@.len() != "input"@.len());
    }
    if e.name@ == "h6"@ {
        assert(e.name@.len() != "button"@.len());
        assert(e.name@.len() != "div"@.len());
        assert(e.name@.len() != "header"@.len());
        assert(e.name@[1] != "h1"@[1]);
        assert(e.name@[1] != "h2"@[1]);
        assert(e.name@[1] != "h3"@[1]);
        assert(e.name@[1] != "h4"@[1]);
        assert(e.name@[1] != "h5"@[1]);
        assert(e.name@.len() != "p"@.len());
        assert(e.name@.len() != "section"@.len());
        assert(e.name@.len() != "option"@.len());
        assert(e.name@.len() != "select"@.len());
        assert(e.name@.len() != "input"@.len());
    }
    if e.name@ == "p"@ {
        assert(e.name@.len() != "button"@.len());
        assert(e.name@.len() != "div"@.len());
        assert(e.name@.len() != "header"@.len());
        assert(e.name@.len() != "h1"@.len());
        assert(e.name@.len() != "h2"@.len());
        assert(e.name@.len() != "h3"@.len());
        assert(e.name@.len() != "h4"@.len());
        assert(e.name@.len() != "h5"@.len());
        assert(e.name@.len() != "h6"@.len());
        assert(e.name@.len() != "section"@.len());
        assert(e.name@.len() != "option"@.len());
        assert(e.name@.len() != "select"@.len());
        assert(e.name@.len() != "input"@.len());
    }
    if e.name@ == "section"@ {
        assert(e.name@.len() != "button"@.len());
        assert(e.name@.len() != "div"@.len());
        assert(e.name@.len() != "header"@.len());
        assert(e.name@.len() != "h1"@.len());
        assert(e.name@.len() != "h2"@.len());
        assert(e.name@.len() != "h3"@.len());
        assert(e.name@.len() != "h4"@.len());
        assert(e.name@.len() != "h5"@.len());
        assert(e.name@.len() != "h6"@.len());
        assert(e.name@.len() != "p"@.len());
        assert(e.name@.len() != "option"@.len());
        assert(e.name@.len() != "select"@.len());
        assert(e.name@.len() != "input"@.len());
    }
    if e.name@ == "option"@ {
        assert(e.name@[0] != "button"@[0]);
        assert(e.name@.len() != "div"@.len());
        assert(e.name@[0] != "header"@[0]);
        assert(e.name@.len() != "h1"@.len());
        assert(e.name@.len() != "h2"@.len());
        assert(e.name@.len() != "h3"@.len());
        assert(e.name@.len() != "h4"@.len());
        assert(e.name@.len() != "h5"@.len());
        assert(e.name@.len() != "h6"@.len());
        assert(e.name@.len() != "p"@.len());
        assert(e.name@.len() != "section"@.len());
        assert(e.name@[0] != "select"@[0]);
        assert(e.name@.len() != "input"@.len());
    }
    if e.name@ == "select"@ {
        assert(e.name@[0] != "button"@[0]);
        assert(e.name@.len() != "div"@.len());
        assert(e.name@[0] != "header"@[0]);
        assert(e.name@.len() != "h1"@.len());
        assert(e.name@.len() != "h2"@.len());
        assert(e.name@.len() != "h3"@.len());
        assert(e.name@.len() != "h4"@.len());
        assert(e.name@.len() != "h5"@.len());
        assert(e.name@.len() != "h6"@.len());
        assert(e.name@.len() != "p"@.len());
        assert(e.name@.len() != "section"@.len());
        assert(e.name@[0] != "option"@[0]);
        assert(e.name@.len() != "input"@.len());
    }
    if e.name@ == "input"@ {
        assert("number"@.len() == 6 && "checkbox"@.len() == 8 && "text"@.len() == 4);
        assert("checkbox"@ != "number"@ && "text"@ != "number"@ && "text"@ != "checkbox"@);
        assert(e.name@.len() != "button"@.len());
        assert(e.name@.len() != "div"@.len());
        assert(e.name@.len() != "header"@.len());
        assert(e.name@.len() != "h1"@.len());
        assert(e.name@.len() != "h2"@.len());
        assert(e.name@.len() != "h3"@.len());
        assert(e.name@.len() != "h4"@.len());
        assert(e.name@.len() != "h5"@.len());
        assert(e.name@.len() != "h6"@.len());
        assert(e.name@.len() != "p"@.len());
        assert(e.name@.len() != "section"@.len());
        assert(e.name@.len() != "option"@.len());
        assert(e.name@.len() != "select"@.len());
    }
}

/// The role of a node: the root is the window, an element other than the
/// root takes its tag's role, and a text node is a text run.
pub proof fn lemma_node_roles(node: DomNode)
    ensures
        node.id == 0 ==> node_role(node) == AccessRole::Window,
        node.id != 0 && element_of(node) is Some ==> node_role(node) == element_role(element_of(node)->0),
        node.id != 0 && node.data is Text ==> node_role(node) == AccessRole::TextRun,
{
}

/// The role of element `e`.
pub fn element_role_of(e: &ElementData) -> (role: AccessRole)
    ensures
        role == element_role(*e),
{
    let name = e.name.as_str();
    if str_eq(name, "button") {
        AccessRole::Button
    } else if str_eq(name, "div") {
        AccessRole::GenericContainer
    } else if str_eq(name, "header") {
        AccessRole::Header
    } else if str_eq(name, "h1") || str_eq(name, "h2") || str_eq(name, "h3") || str_eq(name, "h4")
        || str_eq(name, "h5") || str_eq(name, "h6") {
        AccessRole::Heading
    } else if str_eq(name, "p") {
        AccessRole::Paragraph
    } else if str_eq(name, "section") {
        AccessRole::Section
    } else if str_eq(name, "option") {
        AccessRole::ListBoxOption
    } else if str_eq(name, "select") {
        let mode = match e.select_data() {
            Some(sd) => sd.mode,
            None => crate::select::select_mode(e),
        };
        match mode {
            SelectMode::Dropdown => AccessRole::ComboBox,
            SelectMode::Listbox => AccessRole::ListBox,
        }
    } else if str_eq(name, "input") {
        let is_number;
        let is_checkbox;
        match e.attr("type") {
            Some(t) => {
                is_number = str_eq(t.as_str(), "number");
                is_checkbox = str_eq(t.as_str(), "checkbox");
            },
            None => {
                is_number = str_eq("text", "number");
                is_checkbox = str_eq("text", "checkbox");
            },
        }
        if is_number {
            AccessRole::NumberInput
        } else if is_checkbox {
            AccessRole::CheckBox
        } else {
            AccessRole::TextInput
        }
    } else {
        AccessRole::Unknown
    }
}

impl BaseDocument {
    /// What node `id` exposes to assistive technology (with no children or labels yet).
    pub fn accessibility_info(&self, id: usize) -> (info: AccessNodeInfo)
        requires
            self.wf(),
            id < self.nodes@.len(),
        ensures
            info_matches(info, self.nodes@, id),
            info.children@.len() == 0,
            info.labelled_by@.len() == 0,
    {
        let node = &self.nodes[id];
        let mut info = AccessNodeInfo {
            id: id as u64,
            role: AccessRole::Unknown,
            html_tag: None,
            disabled: false,
            active_descendant: None,
            expanded: false,
            value: None,
            selected: false,
            labelled_by: Vec::new(),
            children: Vec::new(),
        };
        if node.id == 0 {
            info.role = AccessRole::Window;
            return info;
        }
        match &node.data {
            NodeData::Element(e) => {
                info.role = element_role_of(e);
                info.html_tag = Some(e.name.clone());
                info.disabled = node.element_disabled;
                match e.select_data() {
                    Some(sd) => {
                        match sd.active_index {
                            Some(i) => {
                                if i < sd.options.len() {
                                    info.active_descendant = Some(sd.options[i].node_id as u64);
                                }
                            },
                            None => {},
                        }
                        info.expanded = match sd.mode {
                            SelectMode::Dropdown => sd.open,
                            SelectMode::Listbox => false,
                        };
                        match self.first_selected_option(id, sd) {
                            Some(k) => {
                                info.value = Some(sd.options[k].label.clone());
                            },
                            None => {},
                        }
                    },
                    None => {},
                }
                match e.option_data() {
                    Some(o) => {
                        info.selected = o.selected;
                    },
                    None => {},
                }
            },
            NodeData::Text(_) => {
                info.role = AccessRole::TextRun;
                info.value = Some(self.text_content(id));
            },
            _ => {},
        }
        info
    }
}

/// No visited node hangs off a node that is visited after it.
proof fn lemma_attached_none_before(nodes: Seq<DomNode>, order: Seq<usize>, k: int, text_only: bool)
    requires
        0 <= k < order.len(),
        order.no_duplicates(),
    ensures
        attached(nodes, order, k + 1, Some(order[k]), text_only) == Seq::<u64>::empty(),
{
    assert forall|upto: int| 0 <= upto <= k + 1 implies attached(nodes, order, upto, Some(order[k]), text_only)
        == Seq::<u64>::empty() by {
        lemma_attached_prefix_empty(nodes, order, k, upto, text_only);
    }
}

proof fn lemma_attached_prefix_empty(nodes: Seq<DomNode>, order: Seq<usize>, k: int, upto: int, text_only: bool)
    requires
        0 <= k < order.len(),
        0 <= upto <= k + 1,
        order.no_duplicates(),
    ensures
        attached(nodes, order, upto, Some(order[k]), text_only) == Seq::<u64>::empty(),
    decreases upto,
{
    if upto > 0 {
        lemma_attached_prefix_empty(nodes, order, k, upto - 1, text_only);
        let j = upto - 1;
        if order.subrange(0, j).contains(order[k]) {
            let w = choose|w: int| 0 <= w < j && order.subrange(0, j)[w] == order[k];
            assert(order[w] == order[k]);
        }
    }
}

/// A node id is in the list of what hangs off `target` exactly when some
/// visited node with that id hangs off `target`.
proof fn lemma_attached_contains(nodes: Seq<DomNode>, order: Seq<usize>, upto: int, target: Option<usize>, text_only: bool, x: u64)
    requires
        0 <= upto <= order.len(),
    ensures
        attached(nodes, order, upto, target, text_only).contains(x) <==> exists|j: int|
            0 <= j < upto && #[trigger] attach_target(nodes, order, j) == target && (!text_only
                || nodes[order[j] as int].data is Text) && order[j] as u64 == x,
    decreases upto,
{
    if upto > 0 {
        lemma_attached_contains(nodes, order, upto - 1, target, text_only, x);
        let prev = attached(nodes, order, upto - 1, target, text_only);
        let all = attached(nodes, order, upto, target, text_only);
        if all.contains(x) {
            let w = choose|w: int| 0 <= w < all.len() && all[w] == x;
            if w < prev.len() {
                assert(prev[w] == x);
            } else {
                assert(attach_target(nodes, order, upto - 1) == target);
            }
        }
        if exists|j: int|
            0 <= j < upto && #[trigger] attach_target(nodes, order, j) == target && (!text_only
                || nodes[order[j] as int].data is Text) && order[j] as u64 == x {
            let j = choose|j: int|
                0 <= j < upto && #[trigger] attach_target(nodes, order, j) == target && (!text_only
                    || nodes[order[j] as int].data is Text) && order[j] as u64 == x;
            if j < upto - 1 {
                assert(prev.contains(x));
                let w = choose|w: int| 0 <= w < prev.len() && prev[w] == x;
                assert(all[w] == x);
            } else {
                assert(all[all.len() - 1] == x);
            }
        }
    }
}

/// In the accessibility tree every visited node hangs from exactly one place:
/// the list of its attach target holds it, and no other list does.
pub proof fn lemma_each_node_attached_once(nodes: Seq<DomNode>, order: Seq<usize>, j: int, other: Option<usize>)
    requires
        order.no_duplicates(),
        0 <= j < order.len(),
        other != attach_target(nodes, order, j),
    ensures
        attached(nodes, order, order.len() as int, attach_target(nodes, order, j), false).contains(order[j] as u64),
        !attached(nodes, order, order.len() as int, other, false).contains(order[j] as u64),
{
    lemma_attached_contains(nodes, order, order.len() as int, attach_target(nodes, order, j), false, order[j] as u64);
    lemma_attached_contains(nodes, order, order.len() as int, other, false, order[j] as u64);
    assert(attach_target(nodes, order, j) == attach_target(nodes, order, j));
    if attached(nodes, order, order.len() as int, other, false).contains(order[j] as u64) {
        let i = choose|i: int|
            0 <= i < order.len() && #[trigger] attach_target(nodes, order, i) == other && order[i] as u64
                == order[j] as u64;
        assert(order[i] == order[j]);
    }
}

/// In a well-formed document the accessibility tree visits each node at most once.
pub proof fn lemma_access_order_no_duplicates(doc: &BaseDocument)
    requires
        doc.wf(),
    ensures
        access_order(doc).no_duplicates(),
{
    lemma_forest_preorder_nodup(doc.nodes@, 0, doc.nodes@.len());
}

impl BaseDocument {
    /// The accessibility tree of the document: an entry for each node reached
    /// from the root (in document order) with its children and the text
    /// nodes that label it, plus what hangs off the window.
    pub fn accessibility_nodes(&self) -> (tree: AccessTree)
        requires
            self.wf(),
        ensures
            tree.nodes@.len() == access_order(self).len(),
            forall|k: int|
                0 <= k < access_order(self).len() ==> {
                    &&& info_matches(#[trigger] tree.nodes@[k], self.nodes@, access_order(self)[k])
                    &&& tree.nodes@[k].children@ == attached(
                        self.nodes@,
                        access_order(self),
                        access_order(self).len() as int,
                        Some(access_order(self)[k]),
                        false,
                    )
                    &&& tree.nodes@[k].labelled_by@ == attached(
                        self.nodes@,
                        access_order(self),
                        access_order(self).len() as int,
                        Some(access_order(self)[k]),
                        true,
                    )
                },
            tree.window_children@ == attached(self.nodes@, access_order(self), access_order(self).len() as int, None, false),
            tree.window_labelled_by@ == attached(self.nodes@, access_order(self), access_order(self).len() as int, None, true),
            tree.focus == match self.focus_node_id {
                Some(f) => f as u64,
                None => window_id(),
            },
    {
        let ghost nodes = self.nodes@;
        let n = self.nodes.len();
        let mut order: Vec<usize> = Vec::new();
        self.collect_preorder(0, n, &mut order);
        let ghost ord = order@;
        proof {
            assert(ord =~= access_order(self));
            crate::dom::lemma_preorder_bounded(nodes, 0, n as nat);
            lemma_access_order_no_duplicates(self);
        }
        let mut pos: Vec<Option<usize>> = Vec::new();
        let mut i: usize = 0;
        while i < n
            invariant
                i <= n,
                pos@.len() == i,
                forall|j: int| 0 <= j < i ==> #[trigger] pos@[j] is None,
            decreases n - i,
        {
            pos.push(None);
            i = i + 1;
        }
        let mut infos: Vec<AccessNodeInfo> = Vec::new();
        let mut window_children: Vec<u64> = Vec::new();
        let mut window_labelled_by: Vec<u64> = Vec::new();
        let mut k: usize = 0;
        while k < order.len()
            invariant
                self.wf(),
                nodes == self.nodes@,
                n == nodes.len(),
                ord == order@,
                ord == access_order(self),
                ord.no_duplicates(),
                forall|j: int| 0 <= j < ord.len() ==> #[trigger] ord[j] < n,
                k <= ord.len(),
                pos@.len() == n,
                forall|x: int| 0 <= x < n ==> (#[trigger] pos@[x] matches Some(i) ==> i < k && ord[i as int] == x),
                forall|j: int| 0 <= j < k ==> pos@[#[trigger] ord[j] as int] == Some(j as usize),
                infos@.len() == k,
                forall|j: int|
                    0 <= j < k ==> {
                        &&& info_matches(#[trigger] infos@[j], nodes, ord[j])
                        &&& infos@[j].children@ == attached(nodes, ord, k as int, Some(ord[j]), false)
                        &&& infos@[j].labelled_by@ == attached(nodes, ord, k as int, Some(ord[j]), true)
                    },
                window_children@ == attached(nodes, ord, k as int, None, false),
                window_labelled_by@ == attached(nodes, ord, k as int, None, true),
            decreases ord.len() - k,
        {
            let id = order[k];
            let info = self.accessibility_info(id);
            let is_text = self.nodes[id].is_text_node();
            proof {
                assert(crate::dom::links_below(nodes[id as int], n as nat));
            }
            let target: Option<usize> = match self.nodes[id].parent {
                Some(p) => pos[p],
                None => None,
            };
            proof {
                match nodes[id as int].parent {
                    Some(p) => {
                        if ord.subrange(0, k as int).contains(p) {
                            let w = choose|w: int| 0 <= w < k && ord.subrange(0, k as int)[w] == p;
                            assert(pos@[ord[w] as int] == Some(w as usize));
                        }
                        match target {
                            Some(t) => {
                                assert(ord.subrange(0, k as int)[t as int] == p);
                            },
                            None => {},
                        }
                    },
                    None => {},
                }
                assert(attach_target(nodes, ord, k as int) == match target {
                    Some(t) => Some(ord[t as int]),
                    None => None,
                });
            }
            let ghost old_infos = infos@;
            match target {
                Some(t) => {
                    infos[t].children.push(id as u64);
                    if is_text {
                        infos[t].labelled_by.push(id as u64);
                    }
                },
                None => {
                    window_children.push(id as u64);
                    if is_text {
                        window_labelled_by.push(id as u64);
                    }
                },
            }
            infos.push(info);
            pos.set(id, Some(k));
            proof {
                lemma_attached_none_before(nodes, ord, k as int, false);
                lemma_attached_none_before(nodes, ord, k as int, true);
                assert forall|j: int| 0 <= j < k + 1 implies {
                    &&& info_matches(#[trigger] infos@[j], nodes, ord[j])
                    &&& infos@[j].children@ == attached(nodes, ord, k + 1, Some(ord[j]), false)
                    &&& infos@[j].labelled_by@ == attached(nodes, ord, k + 1, Some(ord[j]), true)
                } by {
                    if j < k {
                        if target == Some(j as usize) {
                        } else {
                            if attach_target(nodes, ord, k as int) == Some(ord[j]) {
                                let t = target->0;
                                assert(ord[t as int] == ord[j]);
                            }
                            assert(infos@[j] == old_infos[j]);
                        }
                    }
                }
                assert forall|x: int| 0 <= x < n implies (#[trigger] pos@[x] matches Some(i) ==> i < k + 1 && ord[i as int] == x) by {
                }
                assert forall|j: int| 0 <= j < k + 1 implies pos@[#[trigger] ord[j] as int] == Some(j as usize) by {
                    if j < k {
                        assert(ord[j] != ord[k as int]);
                    }
                }
            }
            k = k + 1;
        }
        let focus = match self.focus_node_id {
            Some(f) => f as u64,
            None => 0xffff_ffff_ffff_ffffu64,
        };
        AccessTree { nodes: infos, window_children, window_labelled_by, focus }
    }
}

#[verifier::external_type_specification]
#[verifier::external_body]
pub struct ExAccessKitNode(accesskit::Node);

#[verifier::external_type_specification]
#[verifier::external_body]
pub struct ExTreeUpdate(accesskit::TreeUpdate);

/// What `accesskit::Node::role` returns on `node`, as the `AccessRole` of the
/// same name (accesskit has roles that have no such name; of those nothing is said).
pub uninterp spec fn access_node_role(node: AccessKitNode) -> AccessRole;

/// What `accesskit::Node::html_tag` returns on `node`.
pub uninterp spec fn access_node_html_tag(node: AccessKitNode) -> Option<Seq<char>>;

/// What `accesskit::Node::is_disabled` returns on `node`.
pub uninterp spec fn access_node_disabled(node: AccessKitNode) -> bool;

/// What `accesskit::Node::active_descendant` returns on `node`, as a raw id.
pub uninterp spec fn access_node_active_descendant(node: AccessKitNode) -> Option<u64>;

/// What `accesskit::Node::is_expanded` returns on `node`.
pub uninterp spec fn access_node_expanded(node: AccessKitNode) -> Option<bool>;

/// What `accesskit::Node::value` returns on `node`.
pub uninterp spec fn access_node_value(node: AccessKitNode) -> Option<Seq<char>>;

/// What `accesskit::Node::is_selected` returns on `node`.
pub uninterp spec fn access_node_selected(node: AccessKitNode) -> Option<bool>;

/// What `accesskit::Node::labelled_by` returns on `node`, as raw ids.
pub uninterp spec fn access_node_labelled_by(node: AccessKitNode) -> Seq<u64>;

/// What `accesskit::Node::children` returns on `node`, as raw ids.
pub uninterp spec fn access_node_children(node: AccessKitNode) -> Seq<u64>;

/// The `nodes` field of an `accesskit::TreeUpdate`, each id as a raw id.
pub uninterp spec fn tree_update_nodes(update: TreeUpdate) -> Seq<(u64, AccessKitNode)>;

/// The root of the `tree` field of an `accesskit::TreeUpdate`, as a raw id
/// (`None` where that field is `None`).
pub uninterp spec fn tree_update_root(update: TreeUpdate) -> Option<u64>;

/// The `focus` field of an `accesskit::TreeUpdate`, as a raw id.
pub uninterp spec fn tree_update_focus(update: TreeUpdate) -> u64;

/// The `tree_id` field of an `accesskit::TreeUpdate`, its UUID as a `u128`
/// (`TreeId::ROOT` is the nil UUID, 0).
pub uninterp spec fn tree_update_tree_id(update: TreeUpdate) -> u128;

/// The `toolkit_name` of the `tree` field of an `accesskit::TreeUpdate`
/// (`None` where that field is `None`).
pub uninterp spec fn tree_update_toolkit_name(update: TreeUpdate) -> Option<Seq<char>>;

/// The `toolkit_version` of the `tree` field of an `accesskit::TreeUpdate`
/// (`None` where that field is `None`).
pub uninterp spec fn tree_update_toolkit_version(update: TreeUpdate) -> Option<Seq<char>>;

/// The properties of an accesskit node that this library sets.
#[verifier::ext_equal]
pub struct AccessKitProps {
    pub role: AccessRole,
    pub html_tag: Option<Seq<char>>,
    pub disabled: bool,
    pub active_descendant: Option<u64>,
    pub expanded: Option<bool>,
    pub value: Option<Seq<char>>,
    pub selected: Option<bool>,
    pub labelled_by: Seq<u64>,
    pub children: Seq<u64>,
}

/// Those properties as `node` holds them.
pub open spec fn access_kit_props(node: AccessKitNode) -> AccessKitProps {
    AccessKitProps {
        role: access_node_role(node),
        html_tag: access_node_html_tag(node),
        disabled: access_node_disabled(node),
        active_descendant: access_node_active_descendant(node),
        expanded: access_node_expanded(node),
        value: access_node_value(node),
        selected: access_node_selected(node),
        labelled_by: access_node_labelled_by(node),
        children: access_node_children(node),
    }
}

/// The properties of the accesskit node that `info` describes, with
/// `children` and `labels`: a flag that is off is left unset.
pub open spec fn info_props(info: AccessNodeInfo, children: Seq<u64>, labels: Seq<u64>) -> AccessKitProps {
    AccessKitProps {
        role: info.role,
        html_tag: match info.html_tag {
            Some(t) => Some(t@),
            None => None,
        },
        disabled: info.disabled,
        active_descendant: info.active_descendant,
        expanded: if info.expanded {
            Some(true)
        } else {
            None
        },
        value: match info.value {
            Some(v) => Some(v@),
            None => None,
        },
        selected: if info.selected {
            Some(true)
        } else {
            None
        },
        labelled_by: labels,
        children,
    }
}

/// The properties of the accesskit node for document node `id`, with
/// `children` and `labels`.
pub open spec fn node_props(nodes: Seq<DomNode>, id: usize, children: Seq<u64>, labels: Seq<u64>) -> AccessKitProps {
    let node = nodes[id as int];
    AccessKitProps {
        role: node_role(node),
        html_tag: if is_plain_element(node) {
            Some(element_of(node)->0.name@)
        } else {
            None
        },
        disabled: is_plain_element(node) && node.element_disabled,
        active_descendant: access_active_descendant(node),
        expanded: if node.id != 0 && (select_data_of(node) matches Some(sd) && sd.mode == SelectMode::Dropdown
            && sd.open) {
            Some(true)
        } else {
            None
        },
        value: access_value(nodes, id),
        selected: if node.id != 0 && (option_data_of(node) matches Some(o) && o.selected) {
            Some(true)
        } else {
            None
        },
        labelled_by: labels,
        children,
    }
}

/// The properties of the window's accesskit node, with `children` and `labels`.
pub open spec fn window_props(children: Seq<u64>, labels: Seq<u64>) -> AccessKitProps {
    AccessKitProps {
        role: AccessRole::Window,
        html_tag: None,
        disabled: false,
        active_descendant: None,
        expanded: None,
        value: None,
        selected: None,
        labelled_by: labels,
        children,
    }
}

proof fn lemma_info_props(info: AccessNodeInfo, nodes: Seq<DomNode>, id: usize, children: Seq<u64>, labels: Seq<u64>)
    requires
        info_matches(info, nodes, id),
    ensures
        info_props(info, children, labels) == node_props(nodes, id, children, labels),
{
}

/// Calls `accesskit::Node::new` with the accesskit role of the same name as
/// `role`: a node with that role and every other property unset.
#[verifier::external_body]
fn new_access_node(role: AccessRole) -> (node: AccessKitNode)
    ensures
        access_node_role(node) == role,
        access_node_html_tag(node) is None,
        !access_node_disabled(node),
        access_node_active_descendant(node) is None,
        access_node_expanded(node) is None,
        access_node_value(node) is None,
        access_node_selected(node) is None,
        access_node_labelled_by(node) == Seq::<u64>::empty(),
        access_node_children(node) == Seq::<u64>::empty(),
{
    AccessKitNode::new(match role {
        AccessRole::Window => Role::Window, AccessRole::Button => Role::Button,
        AccessRole::GenericContainer => Role::GenericContainer, AccessRole::Header => Role::Header,
        AccessRole::Heading => Role::Heading, AccessRole::Paragraph => Role::Paragraph,
        AccessRole::Section => Role::Section, AccessRole::ListBoxOption => Role::ListBoxOption,
        AccessRole::ComboBox => Role::ComboBox, AccessRole::ListBox => Role::ListBox,
        AccessRole::NumberInput => Role::NumberInput, AccessRole::CheckBox => Role::CheckBox,
        AccessRole::TextInput => Role::TextInput, AccessRole::TextRun => Role::TextRun,
        AccessRole::Unknown => Role::Unknown,
    })
}

/// Calls `accesskit::Node::set_html_tag`: the tag becomes `tag`, the rest stays.
#[verifier::external_body]
fn set_html_tag(node: &mut AccessKitNode, tag: String)
    ensures
        access_kit_props(*final(node)) == (AccessKitProps { html_tag: Some(tag@), ..access_kit_props(*old(node)) }),
{
    node.set_html_tag(tag)
}

/// Calls `accesskit::Node::set_disabled`: the node becomes disabled, the rest stays.
#[verifier::external_body]
fn set_disabled(node: &mut AccessKitNode)
    ensures
        access_kit_props(*final(node)) == (AccessKitProps { disabled: true, ..access_kit_props(*old(node)) }),
{
    node.set_disabled()
}

/// Calls `accesskit::Node::set_active_descendant` with `NodeId(id)`: the
/// active descendant becomes `id`, the rest stays.
#[verifier::external_body]
fn set_active_descendant(node: &mut AccessKitNode, id: u64)
    ensures
        access_kit_props(*final(node)) == (AccessKitProps { active_descendant: Some(id), ..access_kit_props(*old(node)) }),
{
    node.set_active_descendant(NodeId(id))
}

/// Calls `accesskit::Node::set_expanded`: expanded becomes `expanded`, the rest stays.
#[verifier::external_body]
fn set_expanded(node: &mut AccessKitNode, expanded: bool)
    ensures
        access_kit_props(*final(node)) == (AccessKitProps { expanded: Some(expanded), ..access_kit_props(*old(node)) }),
{
    node.set_expanded(expanded)
}

/// Calls `accesskit::Node::set_value`: the value becomes `value`, the rest stays.
#[verifier::external_body]
fn set_value(node: &mut AccessKitNode, value: String)
    ensures
        access_kit_props(*final(node)) == (AccessKitProps { value: Some(value@), ..access_kit_props(*old(node)) }),
{
    node.set_value(value)
}

/// Calls `accesskit::Node::set_selected`: selected becomes `selected`, the rest stays.
#[verifier::external_body]
fn set_selected(node: &mut AccessKitNode, selected: bool)
    ensures
        access_kit_props(*final(node)) == (AccessKitProps { selected: Some(selected), ..access_kit_props(*old(node)) }),
{
    node.set_selected(selected)
}

/// Calls `accesskit::Node::push_child` with `NodeId(id)`: `id` goes at the
/// end of the children, the rest stays.
#[verifier::external_body]
fn push_child(node: &mut AccessKitNode, id: u64)
    ensures
        access_kit_props(*final(node)) == (AccessKitProps {
            children: access_node_children(*old(node)).push(id),
            ..access_kit_props(*old(node))
        }),
{
    node.push_child(NodeId(id))
}

/// Calls `accesskit::Node::push_labelled_by` with `NodeId(id)`: `id` goes at
/// the end of the labels, the rest stays.
#[verifier::external_body]
fn push_labelled_by(node: &mut AccessKitNode, id: u64)
    ensures
        access_kit_props(*final(node)) == (AccessKitProps {
            labelled_by: access_node_labelled_by(*old(node)).push(id),
            ..access_kit_props(*old(node))
        }),
{
    node.push_labelled_by(NodeId(id))
}

/// Builds an `accesskit::TreeUpdate` for the root tree (`TreeId::ROOT`)
/// holding `nodes`, with the tree info `TreeInfo::new(NodeId(root))` (no
/// toolkit name or version) and the focus `focus`.
#[verifier::external_body]
fn tree_update(nodes: Vec<(u64, AccessKitNode)>, root: u64, focus: u64) -> (update: TreeUpdate)
    ensures
        tree_update_nodes(update) == nodes@,
        tree_update_root(update) == Some(root),
        tree_update_toolkit_name(update) is None,
        tree_update_toolkit_version(update) is None,
        tree_update_tree_id(update) == 0,
        tree_update_focus(update) == focus,
{
    TreeUpdate {
        tree_id: TreeId::ROOT,
        nodes: nodes.into_iter().map(|(id, node)| (NodeId(id), node)).collect(),
        tree: Some(TreeInfo::new(NodeId(root))),
        focus: NodeId(focus),
    }
}

/// The accesskit node that `info` describes, with `children` and `labels`.
fn access_kit_node(info: &AccessNodeInfo, children: &Vec<u64>, labels: &Vec<u64>) -> (node: AccessKitNode)
    ensures
        access_kit_props(node) == info_props(*info, children@, labels@),
{
    let mut node = new_access_node(info.role);
    match &info.html_tag {
        Some(tag) => set_html_tag(&mut node, tag.clone()),
        None => {},
    }
    if info.disabled {
        set_disabled(&mut node);
    }
    match info.active_descendant {
        Some(id) => set_active_descendant(&mut node, id),
        None => {},
    }
    if info.expanded {
        set_expanded(&mut node, true);
    }
    match &info.value {
        Some(v) => set_value(&mut node, v.clone()),
        None => {},
    }
    if info.selected {
        set_selected(&mut node, true);
    }
    let ghost flags = info_props(*info, Seq::empty(), Seq::empty());
    assert(access_kit_props(node) == flags);
    let mut k: usize = 0;
    while k < labels.len()
        invariant
            k <= labels@.len(),
            access_kit_props(node) == (AccessKitProps { labelled_by: labels@.subrange(0, k as int), ..flags }),
        decreases labels@.len() - k,
    {
        push_labelled_by(&mut node, labels[k]);
        proof {
            assert(labels@.subrange(0, k as int).push(labels@[k as int]) =~= labels@.subrange(0, k + 1));
        }
        k = k + 1;
    }
    assert(labels@.subrange(0, labels@.len() as int) =~= labels@);
    let mut k: usize = 0;
    while k < children.len()
        invariant
            k <= children@.len(),
            access_kit_props(node) == (AccessKitProps {
                labelled_by: labels@,
                children: children@.subrange(0, k as int),
                ..flags
            }),
        decreases children@.len() - k,
    {
        push_child(&mut node, children[k]);
        proof {
            assert(children@.subrange(0, k as int).push(children@[k as int]) =~= children@.subrange(0, k + 1));
        }
        k = k + 1;
    }
    assert(children@.subrange(0, children@.len() as int) =~= children@);
    node
}

/// Whether `entry` is the accesskit entry of the `k`-th node the tree visits:
/// its id, and the node with its children and the text nodes that label it.
pub open spec fn entry_matches(entry: (u64, AccessKitNode), nodes: Seq<DomNode>, order: Seq<usize>, k: int) -> bool {
    let id = order[k];
    let end = order.len() as int;
    &&& entry.0 == id as u64
    &&& access_kit_props(entry.1) == node_props(
        nodes,
        id,
        attached(nodes, order, end, Some(id), false),
        attached(nodes, order, end, Some(id), true),
    )
}

impl BaseDocument {
    /// The document's accessibility tree as an accesskit update: the nodes of
    /// `accessibility_nodes`, then the window that holds them, for the root
    /// tree; the window is the root (with no toolkit name or version) and the
    /// focused node (else the window) has the focus.
    pub fn build_accessibility_tree(&self) -> (update: TreeUpdate)
        requires
            self.wf(),
        ensures
            tree_update_nodes(update).len() == access_order(self).len() + 1,
            forall|k: int|
                0 <= k < access_order(self).len() ==> entry_matches(
                    #[trigger] tree_update_nodes(update)[k],
                    self.nodes@,
                    access_order(self),
                    k,
                ),
            tree_update_nodes(update).last().0 == window_id(),
            access_kit_props(tree_update_nodes(update).last().1) == window_props(
                attached(self.nodes@, access_order(self), access_order(self).len() as int, None, false),
                attached(self.nodes@, access_order(self), access_order(self).len() as int, None, true),
            ),
            tree_update_tree_id(update) == 0,
            tree_update_root(update) == Some(window_id()),
            tree_update_toolkit_name(update) is None,
            tree_update_toolkit_version(update) is None,
            tree_update_focus(update) == match self.focus_node_id {
                Some(f) => f as u64,
                None => window_id(),
            },
    {
        let tree = self.accessibility_nodes();
        let ghost ord = access_order(self);
        let mut nodes: Vec<(u64, AccessKitNode)> = Vec::new();
        let mut k: usize = 0;
        while k < tree.nodes.len()
            invariant
                k <= tree.nodes@.len(),
                tree.nodes@.len() == ord.len(),
                forall|j: int|
                    0 <= j < ord.len() ==> {
                        &&& info_matches(#[trigger] tree.nodes@[j], self.nodes@, ord[j])
                        &&& tree.nodes@[j].children@ == attached(self.nodes@, ord, ord.len() as int, Some(ord[j]), false)
                        &&& tree.nodes@[j].labelled_by@ == attached(self.nodes@, ord, ord.len() as int, Some(ord[j]), true)
                    },
                nodes@.len() == k,
                forall|j: int| 0 <= j < k ==> entry_matches(#[trigger] nodes@[j], self.nodes@, ord, j),
            decreases tree.nodes@.len() - k,
        {
            let info = &tree.nodes[k];
            let node = access_kit_node(info, &info.children, &info.labelled_by);
            proof {
                lemma_info_props(*info, self.nodes@, ord[k as int], info.children@, info.labelled_by@);
            }
            nodes.push((info.id, node));
            k = k + 1;
        }
        let window_info = AccessNodeInfo {
            id: 0xffff_ffff_ffff_ffffu64,
            role: AccessRole::Window,
            html_tag: None,
            disabled: false,
            active_descendant: None,
            expanded: false,
            value: None,
            selected: false,
            labelled_by: Vec::new(),
            children: Vec::new(),
        };
        let window = access_kit_node(&window_info, &tree.window_children, &tree.window_labelled_by);
        let ghost before = nodes@;
        nodes.push((0xffff_ffff_ffff_ffffu64, window));
        proof {
            assert forall|j: int| 0 <= j < ord.len() implies entry_matches(#[trigger] nodes@[j], self.nodes@, ord, j) by {
                assert(nodes@[j] == before[j]);
            }
        }
        tree_update(nodes, 0xffff_ffff_ffff_ffffu64, tree.focus)
    }
}

} // verus!
