//! The document tree: nodes, elements, attributes and the per-element data
//! that `<select>` and `<option>` controls carry.

use std::collections::HashMap;
use std::collections::HashSet;
use vstd::prelude::*;

use crate::tree::{
    ancestor, descends, forest, lemma_forest_append, lemma_forest_empty, lemma_forest_push,
    lemma_forest_same_links,
};

use crate::text::str_eq;

verus! {

broadcast use vstd::std_specs::hash::group_hash_axioms;

/// A name/value attribute of an element.
pub struct Attribute {
    pub name: String,
    pub value: String,
}

/// How a `<select>` presents its options.
#[derive(Clone, Copy, PartialEq, Eq, Structural, Debug)]
pub enum SelectMode {
    /// A closed box that opens a popup list; one option is selected.
    Dropdown,
    /// An always-visible list; several options may be selected.
    Listbox,
}

/// Selection state of an `<option>` element.
#[derive(Clone, Copy, Debug)]
pub struct OptionData {
    pub selected: bool,
    pub default_selected: bool,
}

impl Default for OptionData {
    fn default() -> (d: OptionData)
        ensures
            !d.selected,
            !d.default_selected,
    {
        OptionData { selected: false, default_selected: false }
    }
}

/// One option of a `<select>` as the control lists it.
pub struct SelectOption {
    pub node_id: usize,
    pub value: String,
    pub label: String,
    pub disabled: bool,
}

/// The state of a `<select>` control.
pub struct SelectData {
    pub mode: SelectMode,
    pub open: bool,
    pub active_index: Option<usize>,
    pub anchor_index: Option<usize>,
    pub visible_rows: usize,
    pub popup_rows: usize,
    pub options: Vec<SelectOption>,
}

/// Data that only some elements carry.
pub enum SpecialElementData {
    Select(SelectData),
    Option(OptionData),
    Other,
}

/// An element: its local name, attributes and special data.
pub struct ElementData {
    pub name: String,
    pub attrs: Vec<Attribute>,
    pub special_data: SpecialElementData,
}

/// What a node is.
pub enum NodeData {
    Document,
    Element(ElementData),
    Text(String),
    Comment,
}

/// A node of the document tree.
pub struct DomNode {
    pub id: usize,
    pub parent: Option<usize>,
    pub children: Vec<usize>,
    pub data: NodeData,
    /// Whether the style system reports the element as disabled.
    pub element_disabled: bool,
}

/// A document: its nodes (indexed by id) and the state of its form controls.
pub struct BaseDocument {
    pub nodes: Vec<DomNode>,
    /// The `<select>` whose dropdown popup is open, if any.
    pub open_select_id: Option<usize>,
    /// Nodes whose presentation changed since the last frame.
    pub changed_nodes: HashSet<usize>,
    /// Set whenever the shell should redraw the window.
    pub redraw_requested: bool,
    pub focus_node_id: Option<usize>,
    /// The form that owns each form control.
    pub controls_to_form: HashMap<usize, usize>,
}

// ---------------------------------------------------------------------
// Spec-level reading of nodes
// ---------------------------------------------------------------------

/// The element data of `node`, if it is an element.
pub open spec fn element_of(node: DomNode) -> Option<ElementData> {
    match node.data {
        NodeData::Element(e) => Some(e),
        _ => None,
    }
}

/// The value of the first attribute named `name` among `attrs[from..]`.
pub open spec fn attr_from(attrs: Seq<Attribute>, name: Seq<char>, from: int) -> Option<Seq<char>>
    decreases attrs.len() - from,
{
    if from < 0 || from >= attrs.len() {
        None
    } else if attrs[from].name@ == name {
        Some(attrs[from].value@)
    } else {
        attr_from(attrs, name, from + 1)
    }
}

/// The value of the first attribute of `e` named `name`.
pub open spec fn elem_attr(e: ElementData, name: Seq<char>) -> Option<Seq<char>> {
    attr_from(e.attrs@, name, 0)
}

/// The value of attribute `name` on `node`, if it is an element that has one.
pub open spec fn node_attr(node: DomNode, name: Seq<char>) -> Option<Seq<char>> {
    match element_of(node) {
        Some(e) => elem_attr(e, name),
        None => None,
    }
}

/// Whether `node` is an element whose local name is `tag`.
pub open spec fn is_element_named(node: DomNode, tag: Seq<char>) -> bool {
    match element_of(node) {
        Some(e) => e.name@ == tag,
        None => false,
    }
}

/// The select data of `node`, if it is an element that carries some.
pub open spec fn select_data_of(node: DomNode) -> Option<SelectData> {
    match element_of(node) {
        Some(e) => match e.special_data {
            SpecialElementData::Select(s) => Some(s),
            _ => None,
        },
        None => None,
    }
}

/// The option data of `node`, if it is an element that carries some.
pub open spec fn option_data_of(node: DomNode) -> Option<OptionData> {
    match element_of(node) {
        Some(e) => match e.special_data {
            SpecialElementData::Option(o) => Some(o),
            _ => None,
        },
        None => None,
    }
}

/// Whether the node `id` exists and is an option marked selected.
pub open spec fn node_selected(nodes: Seq<DomNode>, id: int) -> bool {
    0 <= id < nodes.len() && match option_data_of(nodes[id]) {
        Some(o) => o.selected,
        None => false,
    }
}

/// Every node id that `node` refers to is below `n`.
pub open spec fn links_below(node: DomNode, n: nat) -> bool {
    &&& (node.parent matches Some(p) ==> p < n)
    &&& forall|j: int| 0 <= j < node.children@.len() ==> #[trigger] node.children@[j] < n
    &&& (select_data_of(node) matches Some(s) ==> forall|k: int|
        0 <= k < s.options@.len() ==> #[trigger] s.options@[k].node_id < n)
}

/// Pre-order list of the subtree rooted at `id`, following child links at
/// most `fuel` levels deep. Ids that name no node end the branch.
pub open spec fn preorder(nodes: Seq<DomNode>, id: usize, fuel: nat) -> Seq<usize>
    decreases fuel, 0nat,
{
    if fuel == 0 || id >= nodes.len() {
        Seq::empty()
    } else {
        seq![id] + preorder_list(nodes, nodes[id as int].children@, (fuel - 1) as nat)
    }
}

/// Concatenated pre-order lists of the subtrees rooted at `ids`.
pub open spec fn preorder_list(nodes: Seq<DomNode>, ids: Seq<usize>, fuel: nat) -> Seq<usize>
    decreases fuel, ids.len(),
{
    if ids.len() == 0 {
        Seq::empty()
    } else {
        preorder(nodes, ids[0], fuel) + preorder_list(nodes, ids.drop_first(), fuel)
    }
}

/// The text of the text nodes below `id`, in document order, following child
/// links at most `fuel` levels deep.
pub open spec fn text_content(nodes: Seq<DomNode>, id: usize, fuel: nat) -> Seq<char>
    decreases fuel, 0nat,
{
    if fuel == 0 || id >= nodes.len() {
        Seq::empty()
    } else {
        match nodes[id as int].data {
            NodeData::Text(t) => t@,
            NodeData::Element(_) | NodeData::Document => text_content_list(
                nodes,
                nodes[id as int].children@,
                (fuel - 1) as nat,
            ),
            NodeData::Comment => Seq::empty(),
        }
    }
}

/// Concatenated text content of the subtrees rooted at `ids`.
pub open spec fn text_content_list(nodes: Seq<DomNode>, ids: Seq<usize>, fuel: nat) -> Seq<char>
    decreases fuel, ids.len(),
{
    if ids.len() == 0 {
        Seq::empty()
    } else {
        text_content(nodes, ids[0], fuel) + text_content_list(nodes, ids.drop_first(), fuel)
    }
}

impl BaseDocument {
    /// The document's structural invariant: each node sits at the index of
    /// its id, there is a root node, every id a node refers to names a node,
    /// and the parent and child links form a forest.
    pub open spec fn wf(&self) -> bool {
        let n = self.nodes@.len();
        &&& n > 0
        &&& forall|i: int| 0 <= i < n ==> (#[trigger] self.nodes@[i]).id == i
        &&& forall|i: int| 0 <= i < n ==> links_below(#[trigger] self.nodes@[i], n)
        &&& forest(self.nodes@)
        &&& (self.open_select_id matches Some(s) ==> s < n)
    }

    /// The number of nodes, as a nat.
    pub open spec fn len(&self) -> nat {
        self.nodes@.len()
    }

    /// Whether everything but the nodes' special data and the change
    /// bookkeeping is the same in `self` and `other`.
    pub open spec fn same_structure(&self, other: &BaseDocument) -> bool {
        &&& self.nodes@.len() == other.nodes@.len()
        &&& forall|i: int|
            0 <= i < self.nodes@.len() ==> same_node_shape(
                #[trigger] self.nodes@[i],
                other.nodes@[i],
            )
    }
}

/// `a` and `b` agree on everything but their special element data.
pub open spec fn same_node_shape(a: DomNode, b: DomNode) -> bool {
    &&& a.id == b.id
    &&& a.parent == b.parent
    &&& a.children == b.children
    &&& a.element_disabled == b.element_disabled
    &&& match (a.data, b.data) {
        (NodeData::Element(x), NodeData::Element(y)) => x.name == y.name && x.attrs == y.attrs,
        (x, y) => x == y,
    }
}

// ---------------------------------------------------------------------
// Executable reading of nodes
// ---------------------------------------------------------------------

impl ElementData {
    /// The value of the first attribute named `name`.
    pub fn attr(&self, name: &str) -> (res: Option<&String>)
        ensures
            match res {
                Some(v) => elem_attr(*self, name@) == Some(v@),
                None => elem_attr(*self, name@) is None,
            },
    {
        let mut i: usize = 0;
        while i < self.attrs.len()
            invariant
                i <= self.attrs@.len(),
                attr_from(self.attrs@, name@, 0) == attr_from(self.attrs@, name@, i as int),
            decreases self.attrs@.len() - i,
        {
            if str_eq(self.attrs[i].name.as_str(), name) {
                return Some(&self.attrs[i].value);
            }
            i = i + 1;
        }
        None
    }

    /// Whether the element has an attribute named `name`.
    pub fn has_attr(&self, name: &str) -> (res: bool)
        ensures
            res == (elem_attr(*self, name@) is Some),
    {
        self.attr(name).is_some()
    }

    /// Whether the element's local name is `tag`.
    pub fn is_named(&self, tag: &str) -> (res: bool)
        ensures
            res == (self.name@ == tag@),
    {
        str_eq(self.name.as_str(), tag)
    }

    /// The select data the element carries, if any.
    pub fn select_data(&self) -> (res: Option<&SelectData>)
        ensures
            match self.special_data {
                SpecialElementData::Select(s) => res == Some(&s),
                _ => res is None,
            },
    {
        match &self.special_data {
            SpecialElementData::Select(s) => Some(s),
            _ => None,
        }
    }

    /// The option data the element carries, if any.
    pub fn option_data(&self) -> (res: Option<&OptionData>)
        ensures
            match self.special_data {
                SpecialElementData::Option(o) => res == Some(&o),
                _ => res is None,
            },
    {
        match &self.special_data {
            SpecialElementData::Option(o) => Some(o),
            _ => None,
        }
    }
}

impl DomNode {
    /// The node's element data, if it is an element.
    pub fn element_data(&self) -> (res: Option<&ElementData>)
        ensures
            match element_of(*self) {
                Some(e) => res == Some(&e),
                None => res is None,
            },
    {
        match &self.data {
            NodeData::Element(e) => Some(e),
            _ => None,
        }
    }

    /// Whether the node is an element.
    pub fn is_element(&self) -> (res: bool)
        ensures
            res == (element_of(*self) is Some),
    {
        match &self.data {
            NodeData::Element(_) => true,
            _ => false,
        }
    }

    /// Whether the node is an element whose local name is `tag`.
    pub fn is_element_with_tag_name(&self, tag: &str) -> (res: bool)
        ensures
            res == is_element_named(*self, tag@),
    {
        match &self.data {
            NodeData::Element(e) => e.is_named(tag),
            _ => false,
        }
    }

    /// The value of attribute `name`, if the node is an element that has it.
    pub fn attr(&self, name: &str) -> (res: Option<&String>)
        ensures
            match res {
                Some(v) => node_attr(*self, name@) == Some(v@),
                None => node_attr(*self, name@) is None,
            },
    {
        match &self.data {
            NodeData::Element(e) => e.attr(name),
            _ => None,
        }
    }

    /// Whether the node is a text node.
    pub fn is_text_node(&self) -> (res: bool)
        ensures
            res == (self.data is Text),
    {
        match &self.data {
            NodeData::Text(_) => true,
            _ => false,
        }
    }
}

/// Whether the option node `id` is marked selected (false for any other node).
pub fn option_node_selected(nodes: &Vec<DomNode>, id: usize) -> (res: bool)
    requires
        id < nodes@.len(),
    ensures
        res == node_selected(nodes@, id as int),
{
    match nodes[id].element_data() {
        Some(e) => match e.option_data() {
            Some(o) => o.selected,
            None => false,
        },
        None => false,
    }
}

impl BaseDocument {
    /// The node with id `id`, if there is one.
    pub fn get_node(&self, id: usize) -> (res: Option<&DomNode>)
        ensures
            id < self.nodes@.len() ==> res == Some(&self.nodes@[id as int]),
            id >= self.nodes@.len() ==> res is None,
    {
        if id < self.nodes.len() {
            Some(&self.nodes[id])
        } else {
            None
        }
    }

    /// The document's root node.
    pub fn root_node(&self) -> (res: &DomNode)
        requires
            self.wf(),
        ensures
            *res == self.nodes@[0],
    {
        &self.nodes[0]
    }

    /// Appends the pre-order list of the subtree rooted at `id` to `out`.
    pub fn collect_preorder(&self, id: usize, fuel: usize, out: &mut Vec<usize>)
        ensures
            final(out)@ == old(out)@ + preorder(self.nodes@, id, fuel as nat),
        decreases fuel, 0nat,
    {
        if fuel == 0 || id >= self.nodes.len() {
            assert(final(out)@ =~= old(out)@ + preorder(self.nodes@, id, fuel as nat));
            return ;
        }
        out.push(id);
        self.collect_preorder_list(&self.nodes[id].children, 0, fuel - 1, out);
        assert(self.nodes@[id as int].children@.skip(0) =~= self.nodes@[id as int].children@);
        assert(final(out)@ =~= old(out)@ + preorder(self.nodes@, id, fuel as nat));
    }

    /// Appends the pre-order lists of the subtrees rooted at `ids[from..]` to `out`.
    fn collect_preorder_list(&self, ids: &Vec<usize>, from: usize, fuel: usize, out: &mut Vec<usize>)
        requires
            from <= ids@.len(),
        ensures
            final(out)@ == old(out)@ + preorder_list(self.nodes@, ids@.skip(from as int), fuel as nat),
        decreases fuel, ids@.len() - from,
    {
        if from >= ids.len() {
            assert(ids@.skip(from as int) =~= Seq::<usize>::empty());
            assert(final(out)@ =~= old(out)@);
            return ;
        }
        self.collect_preorder(ids[from], fuel, out);
        self.collect_preorder_list(ids, from + 1, fuel, out);
        assert(ids@.skip(from as int).drop_first() =~= ids@.skip(from + 1));
        assert(ids@.skip(from as int)[0] == ids@[from as int]);
        assert(final(out)@ =~= old(out)@ + preorder_list(self.nodes@, ids@.skip(from as int), fuel as nat));
    }

    /// Appends the text content of the subtree rooted at `id` to `out`.
    pub fn push_text_content(&self, id: usize, fuel: usize, out: &mut String)
        ensures
            final(out)@ == old(out)@ + text_content(self.nodes@, id, fuel as nat),
        decreases fuel, 0nat,
    {
        if fuel == 0 || id >= self.nodes.len() {
            assert(final(out)@ =~= old(out)@ + text_content(self.nodes@, id, fuel as nat));
            return ;
        }
        match &self.nodes[id].data {
            NodeData::Text(t) => {
                out.append(t.as_str());
            },
            NodeData::Element(_) | NodeData::Document => {
                self.push_text_content_list(&self.nodes[id].children, 0, fuel - 1, out);
                assert(self.nodes@[id as int].children@.skip(0) =~= self.nodes@[id as int].children@);
            },
            NodeData::Comment => {},
        }
        assert(final(out)@ =~= old(out)@ + text_content(self.nodes@, id, fuel as nat));
    }

    fn push_text_content_list(&self, ids: &Vec<usize>, from: usize, fuel: usize, out: &mut String)
        requires
            from <= ids@.len(),
        ensures
            final(out)@ == old(out)@ + text_content_list(self.nodes@, ids@.skip(from as int), fuel as nat),
        decreases fuel, ids@.len() - from,
    {
        if from >= ids.len() {
            assert(ids@.skip(from as int) =~= Seq::<usize>::empty());
            assert(final(out)@ =~= old(out)@);
            return ;
        }
        self.push_text_content(ids[from], fuel, out);
        self.push_text_content_list(ids, from + 1, fuel, out);
        assert(ids@.skip(from as int).drop_first() =~= ids@.skip(from + 1));
        assert(ids@.skip(from as int)[0] == ids@[from as int]);
        assert(final(out)@ =~= old(out)@ + text_content_list(self.nodes@, ids@.skip(from as int), fuel as nat));
    }

    /// The text content of node `id` (the text of the text nodes below it).
    pub fn text_content(&self, id: usize) -> (res: String)
        ensures
            res@ == text_content(self.nodes@, id, self.nodes@.len()),
    {
        let mut out = String::new();
        self.push_text_content(id, self.nodes.len(), &mut out);
        assert(out@ =~= text_content(self.nodes@, id, self.nodes@.len()));
        out
    }
}

/// `node` with its special element data replaced by `sd` (unchanged if it is
/// not an element).
pub open spec fn with_special(node: DomNode, sd: SpecialElementData) -> DomNode {
    match node.data {
        NodeData::Element(e) => DomNode {
            data: NodeData::Element(ElementData { special_data: sd, ..e }),
            ..node
        },
        _ => node,
    }
}

/// Whether the option ids of `sd` (if it is select data) are all below `n`.
pub open spec fn special_links_below(sd: SpecialElementData, n: nat) -> bool {
    match sd {
        SpecialElementData::Select(s) => forall|k: int|
            0 <= k < s.options@.len() ==> #[trigger] s.options@[k].node_id < n,
        _ => true,
    }
}

impl BaseDocument {
    /// A document holding only its root node.
    pub fn new() -> (doc: BaseDocument)
        ensures
            doc.wf(),
            doc.nodes@.len() == 1,
            doc.nodes@[0].data is Document,
            doc.nodes@[0].parent is None,
            doc.nodes@[0].children@.len() == 0,
            doc.open_select_id is None,
            doc.changed_nodes@.len() == 0,
            !doc.redraw_requested,
            doc.focus_node_id is None,
            doc.controls_to_form@.len() == 0,
    {
        let mut nodes: Vec<DomNode> = Vec::new();
        nodes.push(
            DomNode {
                id: 0,
                parent: None,
                children: Vec::new(),
                data: NodeData::Document,
                element_disabled: false,
            },
        );
        let doc = BaseDocument {
            nodes,
            open_select_id: None,
            changed_nodes: HashSet::new(),
            redraw_requested: false,
            focus_node_id: None,
            controls_to_form: HashMap::new(),
        };
        assert(links_below(doc.nodes@[0], 1));
        proof {
            lemma_forest_empty();
            lemma_forest_push(Seq::empty(), doc.nodes@[0]);
            assert(Seq::<DomNode>::empty().push(doc.nodes@[0]) =~= doc.nodes@);
        }
        doc
    }

    /// Adds a detached element named `name` with attributes `attrs`; returns its id.
    pub fn create_element(&mut self, name: &str, attrs: Vec<Attribute>) -> (id: usize)
        requires
            old(self).wf(),
            old(self).nodes@.len() < usize::MAX,
        ensures
            final(self).wf(),
            id == old(self).nodes@.len(),
            final(self).nodes@.len() == id + 1,
            forall|i: int| 0 <= i < id ==> final(self).nodes@[i] == old(self).nodes@[i],
            final(self).nodes@[id as int].id == id,
            final(self).nodes@[id as int].parent is None,
            final(self).nodes@[id as int].children@.len() == 0,
            !final(self).nodes@[id as int].element_disabled,
            match final(self).nodes@[id as int].data {
                NodeData::Element(e) => e.name@ == name@ && e.attrs == attrs
                    && e.special_data is Other,
                _ => false,
            },
            final(self).open_select_id == old(self).open_select_id,
            final(self).changed_nodes == old(self).changed_nodes,
            final(self).redraw_requested == old(self).redraw_requested,
            final(self).focus_node_id == old(self).focus_node_id,
            final(self).controls_to_form == old(self).controls_to_form,
    {
        let id = self.nodes.len();
        let node = DomNode {
            id,
            parent: None,
            children: Vec::new(),
            data: NodeData::Element(
                ElementData { name: String::from_str(name), attrs, special_data: SpecialElementData::Other },
            ),
            element_disabled: false,
        };
        self.nodes.push(node);
        proof {
            lemma_forest_push(old(self).nodes@, node);
            let n = self.nodes@.len();
            assert forall|i: int| 0 <= i < n implies links_below(#[trigger] self.nodes@[i], n) by {
                if i < id {
                    assert(links_below(old(self).nodes@[i], (n - 1) as nat));
                }
            }
        }
        id
    }

    /// Adds a detached text node holding `text`; returns its id.
    pub fn create_text_node(&mut self, text: &str) -> (id: usize)
        requires
            old(self).wf(),
            old(self).nodes@.len() < usize::MAX,
        ensures
            final(self).wf(),
            id == old(self).nodes@.len(),
            final(self).nodes@.len() == id + 1,
            forall|i: int| 0 <= i < id ==> final(self).nodes@[i] == old(self).nodes@[i],
            final(self).nodes@[id as int].id == id,
            final(self).nodes@[id as int].parent is None,
            final(self).nodes@[id as int].children@.len() == 0,
            !final(self).nodes@[id as int].element_disabled,
            match final(self).nodes@[id as int].data {
                NodeData::Text(t) => t@ == text@,
                _ => false,
            },
            final(self).open_select_id == old(self).open_select_id,
            final(self).changed_nodes == old(self).changed_nodes,
            final(self).redraw_requested == old(self).redraw_requested,
            final(self).focus_node_id == old(self).focus_node_id,
            final(self).controls_to_form == old(self).controls_to_form,
    {
        let id = self.nodes.len();
        let node = DomNode {
            id,
            parent: None,
            children: Vec::new(),
            data: NodeData::Text(String::from_str(text)),
            element_disabled: false,
        };
        self.nodes.push(node);
        proof {
            lemma_forest_push(old(self).nodes@, node);
            let n = self.nodes@.len();
            assert forall|i: int| 0 <= i < n implies links_below(#[trigger] self.nodes@[i], n) by {
                if i < id {
                    assert(links_below(old(self).nodes@[i], (n - 1) as nat));
                }
            }
        }
        id
    }

    /// Makes each of `children` (in order) the last child of `parent`. Each
    /// child is detached, listed once, and does not hold `parent` below it.
    pub fn append_children(&mut self, parent: usize, children: &[usize])
        requires
            old(self).wf(),
            parent < old(self).nodes@.len(),
            forall|k: int| 0 <= k < children@.len() ==> #[trigger] children@[k] < old(self).nodes@.len(),
            children@.no_duplicates(),
            forall|k: int| 0 <= k < children@.len() ==> old(self).nodes@[#[trigger] children@[k] as int].parent is None,
            forall|k: int| 0 <= k < children@.len() ==> !descends(old(self).nodes@, parent, #[trigger] children@[k]),
        ensures
            final(self).wf(),
            final(self).nodes@.len() == old(self).nodes@.len(),
            final(self).nodes@[parent as int].children@ == old(self).nodes@[parent as int].children@
                + children@,
            forall|i: int|
                0 <= i < old(self).nodes@.len() ==> (#[trigger] final(self).nodes@[i]).parent == (
                if children@.contains(i as usize) {
                    Some(parent)
                } else {
                    old(self).nodes@[i].parent
                }),
            forall|i: int|
                0 <= i < old(self).nodes@.len() && i != parent ==> (#[trigger] final(self).nodes@[i]).children == old(self).nodes@[i].children,
            forall|i: int|
                0 <= i < old(self).nodes@.len() ==> (#[trigger] final(self).nodes@[i]).data == old(self).nodes@[i].data && final(self).nodes@[i].id == old(self).nodes@[i].id
                    && final(self).nodes@[i].element_disabled == old(self).nodes@[i].element_disabled,
            final(self).open_select_id == old(self).open_select_id,
            final(self).changed_nodes == old(self).changed_nodes,
            final(self).redraw_requested == old(self).redraw_requested,
            final(self).focus_node_id == old(self).focus_node_id,
            final(self).controls_to_form == old(self).controls_to_form,
    {
        let ghost n = self.nodes@.len();
        let mut k: usize = 0;
        while k < children.len()
            invariant
                self.wf(),
                self.nodes@.len() == n,
                n == old(self).nodes@.len(),
                parent < n,
                k <= children@.len(),
                forall|j: int| 0 <= j < children@.len() ==> #[trigger] children@[j] < n,
                children@.no_duplicates(),
                forall|j: int| 0 <= j < children@.len() ==> old(self).nodes@[#[trigger] children@[j] as int].parent is None,
                forall|j: int| 0 <= j < children@.len() ==> !descends(old(self).nodes@, parent, #[trigger] children@[j]),
                forall|m: nat| #[trigger] ancestor(self.nodes@, parent, m) == ancestor(old(self).nodes@, parent, m),
                self.nodes@[parent as int].children@ == old(self).nodes@[parent as int].children@
                    + children@.subrange(0, k as int),
                forall|i: int|
                    0 <= i < n ==> (#[trigger] self.nodes@[i]).parent == (if children@.subrange(
                        0,
                        k as int,
                    ).contains(i as usize) {
                        Some(parent)
                    } else {
                        old(self).nodes@[i].parent
                    }),
                forall|i: int|
                    0 <= i < n && i != parent ==> (#[trigger] self.nodes@[i]).children == old(self).nodes@[i].children,
                forall|i: int|
                    0 <= i < n ==> (#[trigger] self.nodes@[i]).data == old(self).nodes@[i].data
                        && self.nodes@[i].id == old(self).nodes@[i].id
                        && self.nodes@[i].element_disabled == old(self).nodes@[i].element_disabled,
                self.open_select_id == old(self).open_select_id,
                self.changed_nodes == old(self).changed_nodes,
                self.redraw_requested == old(self).redraw_requested,
                self.focus_node_id == old(self).focus_node_id,
                self.controls_to_form == old(self).controls_to_form,
            decreases children@.len() - k,
        {
            let child = children[k];
            let ghost before = self.nodes@;
            self.nodes[child].parent = Some(parent);
            self.nodes[parent].children.push(child);
            proof {
                let sub = children@.subrange(0, k as int);
                let sub1 = children@.subrange(0, k + 1);
                assert(sub1 =~= sub.push(child));
                assert(!sub.contains(child)) by {
                    if sub.contains(child) {
                        let w = choose|w: int| 0 <= w < sub.len() && sub[w] == child;
                        assert(children@[w] == children@[k as int]);
                    }
                }
                assert(before[child as int].parent is None);
                assert forall|m: nat| #[trigger] ancestor(before, parent, m) != Some(child) by {
                    assert(ancestor(old(self).nodes@, parent, m) != Some(child));
                }
                lemma_forest_append(before, self.nodes@, parent, child);
                assert forall|i: int| 0 <= i < n implies links_below(#[trigger] self.nodes@[i], n) by {
                    assert(links_below(before[i], n));
                    if i == parent {
                        let ch = self.nodes@[i].children@;
                        assert forall|j: int| 0 <= j < ch.len() implies #[trigger] ch[j] < n by {
                            if j < before[i].children@.len() {
                                assert(ch[j] == before[i].children@[j]);
                            }
                        }
                    }
                }
                assert forall|i: int| 0 <= i < n implies (#[trigger] self.nodes@[i]).parent == (
                if sub1.contains(i as usize) {
                    Some(parent)
                } else {
                    old(self).nodes@[i].parent
                }) by {
                    if i == child {
                        assert(sub1[k as int] == child);
                    } else {
                        assert(sub1.contains(i as usize) == sub.contains(i as usize)) by {
                            if sub1.contains(i as usize) {
                                let w = choose|w: int| 0 <= w < sub1.len() && sub1[w] == i as usize;
                                assert(sub[w] == i as usize);
                            }
                            if sub.contains(i as usize) {
                                let w = choose|w: int| 0 <= w < sub.len() && sub[w] == i as usize;
                                assert(sub1[w] == i as usize);
                            }
                        }
                    }
                }
                assert(self.nodes@[parent as int].children@ =~= old(self).nodes@[parent as int].children@
                    + sub1);
            }
            k = k + 1;
        }
        assert(children@.subrange(0, children@.len() as int) =~= children@);
    }

    /// Replaces the special data of node `id` (when it is an element).
    pub fn set_special_data(&mut self, id: usize, sd: SpecialElementData)
        requires
            old(self).wf(),
            id < old(self).nodes@.len(),
            special_links_below(sd, old(self).nodes@.len()),
        ensures
            final(self).wf(),
            final(self).nodes@ == old(self).nodes@.update(id as int, with_special(old(self).nodes@[id as int], sd)),
            final(self).open_select_id == old(self).open_select_id,
            final(self).changed_nodes == old(self).changed_nodes,
            final(self).redraw_requested == old(self).redraw_requested,
            final(self).focus_node_id == old(self).focus_node_id,
            final(self).controls_to_form == old(self).controls_to_form,
    {
        let ghost before = self.nodes@;
        match &mut self.nodes[id].data {
            NodeData::Element(e) => {
                e.special_data = sd;
            },
            _ => {},
        }
        proof {
            let n = self.nodes@.len();
            assert(self.nodes@ =~= before.update(id as int, with_special(before[id as int], sd)));
            lemma_forest_same_links(before, self.nodes@);
            assert forall|i: int| 0 <= i < n implies links_below(#[trigger] self.nodes@[i], n) by {
                assert(links_below(before[i], n));
            }
        }
    }
}

/// The input event a form control sends: the control's new value.
pub struct BlitzInputEvent {
    pub value: String,
}

/// What happened to an element.
pub enum DomEventData {
    /// The control's value is being edited.
    Input(BlitzInputEvent),
    /// The control's value was committed.
    Change(BlitzInputEvent),
}

/// An event addressed to node `target`.
pub struct DomEvent {
    pub target: usize,
    pub data: DomEventData,
}

/// `node` with the open flag and the active and anchor options of its select
/// data replaced (unchanged when it carries no select data).
pub open spec fn with_select_state(node: DomNode, open: bool, active: Option<usize>, anchor: Option<usize>) -> DomNode {
    match select_data_of(node) {
        Some(sd) => with_special(
            node,
            SpecialElementData::Select(SelectData { open, active_index: active, anchor_index: anchor, ..sd }),
        ),
        None => node,
    }
}

/// `node` with the selectedness of its option data replaced (unchanged when it
/// carries no option data).
pub open spec fn with_option_selected(node: DomNode, selected: bool) -> DomNode {
    match option_data_of(node) {
        Some(o) => with_special(node, SpecialElementData::Option(OptionData { selected, ..o })),
        None => node,
    }
}

impl BaseDocument {
    /// Sets the open flag and the active and anchor options of select `id`.
    pub fn set_select_state(&mut self, id: usize, open: bool, active: Option<usize>, anchor: Option<usize>)
        requires
            old(self).wf(),
            id < old(self).nodes@.len(),
        ensures
            final(self).wf(),
            final(self).nodes@ == old(self).nodes@.update(
                id as int,
                with_select_state(old(self).nodes@[id as int], open, active, anchor),
            ),
            final(self).open_select_id == old(self).open_select_id,
            final(self).changed_nodes == old(self).changed_nodes,
            final(self).redraw_requested == old(self).redraw_requested,
            final(self).focus_node_id == old(self).focus_node_id,
            final(self).controls_to_form == old(self).controls_to_form,
    {
        let ghost before = self.nodes@;
        match &mut self.nodes[id].data {
            NodeData::Element(e) => match &mut e.special_data {
                SpecialElementData::Select(sd) => {
                    sd.open = open;
                    sd.active_index = active;
                    sd.anchor_index = anchor;
                },
                _ => {},
            },
            _ => {},
        }
        proof {
            let n = self.nodes@.len();
            assert(self.nodes@ =~= before.update(id as int, with_select_state(before[id as int], open, active, anchor)));
            lemma_forest_same_links(before, self.nodes@);
            assert forall|i: int| 0 <= i < n implies links_below(#[trigger] self.nodes@[i], n) by {
                assert(links_below(before[i], n));
            }
        }
    }

    /// Sets whether option `id` is selected.
    pub fn set_option_selected(&mut self, id: usize, selected: bool)
        requires
            old(self).wf(),
            id < old(self).nodes@.len(),
        ensures
            final(self).wf(),
            final(self).nodes@ == old(self).nodes@.update(
                id as int,
                with_option_selected(old(self).nodes@[id as int], selected),
            ),
            final(self).open_select_id == old(self).open_select_id,
            final(self).changed_nodes == old(self).changed_nodes,
            final(self).redraw_requested == old(self).redraw_requested,
            final(self).focus_node_id == old(self).focus_node_id,
            final(self).controls_to_form == old(self).controls_to_form,
    {
        let ghost before = self.nodes@;
        match &mut self.nodes[id].data {
            NodeData::Element(e) => match &mut e.special_data {
                SpecialElementData::Option(o) => {
                    o.selected = selected;
                },
                _ => {},
            },
            _ => {},
        }
        proof {
            let n = self.nodes@.len();
            assert(self.nodes@ =~= before.update(id as int, with_option_selected(before[id as int], selected)));
            lemma_forest_same_links(before, self.nodes@);
            assert forall|i: int| 0 <= i < n implies links_below(#[trigger] self.nodes@[i], n) by {
                assert(links_below(before[i], n));
            }
        }
    }

    /// Records that node `id` changed and that the window needs a redraw.
    pub fn mark_changed(&mut self, id: usize)
        ensures
            final(self).nodes == old(self).nodes,
            final(self).changed_nodes@ == old(self).changed_nodes@.insert(id),
            final(self).redraw_requested,
            final(self).open_select_id == old(self).open_select_id,
            final(self).focus_node_id == old(self).focus_node_id,
            final(self).controls_to_form == old(self).controls_to_form,
    {
        self.changed_nodes.insert(id);
        self.redraw_requested = true;
    }

    /// Reports whether a redraw was requested since the last call, and clears the request.
    pub fn take_redraw_request(&mut self) -> (res: bool)
        ensures
            res == old(self).redraw_requested,
            !final(self).redraw_requested,
            final(self).nodes == old(self).nodes,
            final(self).changed_nodes == old(self).changed_nodes,
            final(self).open_select_id == old(self).open_select_id,
            final(self).focus_node_id == old(self).focus_node_id,
            final(self).controls_to_form == old(self).controls_to_form,
    {
        let requested = self.redraw_requested;
        self.redraw_requested = false;
        requested
    }

    /// The select data of node `id`, if it is a select element that has some.
    pub fn select_data_at(&self, id: usize) -> (res: Option<&SelectData>)
        requires
            id < self.nodes@.len(),
        ensures
            match select_data_of(self.nodes@[id as int]) {
                Some(sd) => res == Some(&sd),
                None => res is None,
            },
    {
        match self.nodes[id].element_data() {
            Some(e) => e.select_data(),
            None => None,
        }
    }
}

/// Every id that a pre-order list holds names a node.
pub proof fn lemma_preorder_bounded(nodes: Seq<DomNode>, id: usize, fuel: nat)
    ensures
        forall|j: int| 0 <= j < preorder(nodes, id, fuel).len() ==> #[trigger] preorder(nodes, id, fuel)[j] < nodes.len(),
    decreases fuel, 0nat,
{
    if fuel > 0 && id < nodes.len() {
        lemma_preorder_list_bounded(nodes, nodes[id as int].children@, (fuel - 1) as nat);
        let rest = preorder_list(nodes, nodes[id as int].children@, (fuel - 1) as nat);
        let all = preorder(nodes, id, fuel);
        assert forall|j: int| 0 <= j < all.len() implies #[trigger] all[j] < nodes.len() by {
            if j > 0 {
                assert(all[j] == rest[j - 1]);
            }
        }
    }
}

/// Every id that a concatenation of pre-order lists holds names a node.
pub proof fn lemma_preorder_list_bounded(nodes: Seq<DomNode>, ids: Seq<usize>, fuel: nat)
    ensures
        forall|j: int| 0 <= j < preorder_list(nodes, ids, fuel).len() ==> #[trigger] preorder_list(nodes, ids, fuel)[j] < nodes.len(),
    decreases fuel, ids.len(),
{
    if ids.len() > 0 {
        lemma_preorder_bounded(nodes, ids[0], fuel);
        lemma_preorder_list_bounded(nodes, ids.drop_first(), fuel);
        let a = preorder(nodes, ids[0], fuel);
        let b = preorder_list(nodes, ids.drop_first(), fuel);
        let all = preorder_list(nodes, ids, fuel);
        assert forall|j: int| 0 <= j < all.len() implies #[trigger] all[j] < nodes.len() by {
            if j < a.len() {
                assert(all[j] == a[j]);
            } else {
                assert(all[j] == b[j - a.len()]);
            }
        }
    }
}

} // verus!
