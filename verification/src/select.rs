//! The `<select>` control: how its options, mode and selection are derived
//! from the document, and how user actions change them.

use vstd::prelude::*;

use crate::dom::{
    BaseDocument, ElementData, DomNode, OptionData, SelectData, SelectMode, SelectOption, element_of, elem_attr,
    is_element_named, links_below, node_attr, option_data_of, preorder, same_node_shape,
    select_data_of, text_content, with_special, SpecialElementData, node_selected,
    option_node_selected, with_select_state, with_option_selected, DomEvent, DomEventData,
    BlitzInputEvent,
};
use crate::text::{lowercase, parse_usize, parse_usize_spec, starts_with, str_eq, to_lowercase};

verus! {

broadcast use vstd::std_specs::hash::group_hash_axioms;

// ---------------------------------------------------------------------
// Generic searches over sequences
// ---------------------------------------------------------------------

/// The first position `k >= from` of `s` whose element satisfies `p`.
pub open spec fn first_pos_from(s: Seq<usize>, p: spec_fn(usize) -> bool, from: int) -> Option<int>
    decreases s.len() - from,
{
    if from < 0 || from >= s.len() {
        None
    } else if p(s[from]) {
        Some(from)
    } else {
        first_pos_from(s, p, from + 1)
    }
}

/// The first position of `s` whose element satisfies `p`.
pub open spec fn first_pos(s: Seq<usize>, p: spec_fn(usize) -> bool) -> Option<int> {
    first_pos_from(s, p, 0)
}

/// The element of `s` at the first position whose element satisfies `p`.
pub open spec fn first_elem(s: Seq<usize>, p: spec_fn(usize) -> bool) -> Option<usize> {
    match first_pos(s, p) {
        Some(k) => Some(s[k]),
        None => None,
    }
}

/// The first position found is one whose element satisfies `p`, and no
/// earlier element does.
pub proof fn lemma_first_pos_from(s: Seq<usize>, p: spec_fn(usize) -> bool, from: int)
    requires
        0 <= from,
    ensures
        match first_pos_from(s, p, from) {
            Some(k) => from <= k < s.len() && p(s[k]) && forall|j: int| from <= j < k ==> !p(#[trigger] s[j]),
            None => forall|j: int| from <= j < s.len() ==> !p(#[trigger] s[j]),
        },
    decreases s.len() - from,
{
    if from < s.len() {
        lemma_first_pos_from(s, p, from + 1);
    }
}

// ---------------------------------------------------------------------
// Attributes of select and option elements
// ---------------------------------------------------------------------

/// Whether an attribute value counts as true: empty or exactly `true`.
pub open spec fn truthy(v: Seq<char>) -> bool {
    v == "true"@ || v.len() == 0
}

/// What `truthy_attr` reports for attribute `name` of `e`.
pub open spec fn truthy_attr_spec(e: ElementData, name: Seq<char>) -> Option<bool> {
    match elem_attr(e, name) {
        Some(v) => Some(truthy(v)),
        None => None,
    }
}

/// Whether attribute `name` of `element` is present, and if so whether it is truthy.
pub fn truthy_attr(element: &ElementData, name: &str) -> (res: Option<bool>)
    ensures
        res == truthy_attr_spec(*element, name@),
{
    match element.attr(name) {
        Some(value) => Some(str_eq(value.as_str(), "true") || value.unicode_len() == 0),
        None => None,
    }
}

/// The `size` attribute of a select as a number (0 when absent or malformed).
pub open spec fn select_size(e: ElementData) -> usize {
    match elem_attr(e, "size"@) {
        Some(v) => match parse_usize_spec(v) {
            Some(n) => n,
            None => 0,
        },
        None => 0,
    }
}

/// A select is a list box when it allows several choices or shows more than one row.
pub open spec fn select_mode_spec(e: ElementData) -> SelectMode {
    if elem_attr(e, "multiple"@) is Some || select_size(e) > 1 {
        SelectMode::Listbox
    } else {
        SelectMode::Dropdown
    }
}

/// The `size` attribute of `element` parsed as a number, if it parses.
fn parsed_size(element: &ElementData) -> (res: Option<usize>)
    ensures
        res == (match elem_attr(*element, "size"@) {
            Some(v) => parse_usize_spec(v),
            None => None,
        }),
{
    match element.attr("size") {
        Some(v) => parse_usize(v.as_str()),
        None => None,
    }
}

/// The presentation mode of a select element.
pub fn select_mode(element: &ElementData) -> (mode: SelectMode)
    ensures
        mode == select_mode_spec(*element),
{
    let size = match parsed_size(element) {
        Some(n) => n,
        None => 0,
    };
    if element.has_attr("multiple") || size > 1 {
        SelectMode::Listbox
    } else {
        SelectMode::Dropdown
    }
}

/// Whether an ancestor of an option, from `cur` up to (not including) the
/// select `select_id`, is a disabled `<optgroup>`; at most `fuel` steps.
pub open spec fn optgroup_disabled(nodes: Seq<DomNode>, select_id: usize, cur: Option<usize>, fuel: nat) -> bool
    decreases fuel,
{
    match cur {
        None => false,
        Some(p) => if fuel == 0 || p == select_id || p >= nodes.len() {
            false
        } else if is_element_named(nodes[p as int], "optgroup"@) && node_attr(
            nodes[p as int],
            "disabled"@,
        ) is Some {
            true
        } else {
            optgroup_disabled(nodes, select_id, nodes[p as int].parent, (fuel - 1) as nat)
        },
    }
}

/// An option is disabled when it has a `disabled` attribute or sits in a
/// disabled `<optgroup>` inside its select.
pub open spec fn option_disabled_spec(nodes: Seq<DomNode>, select_id: usize, option_id: usize) -> bool {
    node_attr(nodes[option_id as int], "disabled"@) is Some || optgroup_disabled(
        nodes,
        select_id,
        nodes[option_id as int].parent,
        nodes.len(),
    )
}

/// The value an option submits: its `value` attribute, else its text.
pub open spec fn option_value_spec(nodes: Seq<DomNode>, option_id: usize) -> Seq<char> {
    match node_attr(nodes[option_id as int], "value"@) {
        Some(v) => v,
        None => text_content(nodes, option_id, nodes.len()),
    }
}

/// The label an option shows: its `label` attribute, else its text.
pub open spec fn option_label_spec(nodes: Seq<DomNode>, option_id: usize) -> Seq<char> {
    match node_attr(nodes[option_id as int], "label"@) {
        Some(v) => v,
        None => text_content(nodes, option_id, nodes.len()),
    }
}

/// The nearest select element at or above `id`, following at most `fuel` parents.
pub open spec fn enclosing_select(nodes: Seq<DomNode>, id: usize, fuel: nat) -> Option<usize>
    decreases fuel,
{
    if fuel == 0 || id >= nodes.len() {
        None
    } else if is_element_named(nodes[id as int], "select"@) {
        Some(id)
    } else {
        match nodes[id as int].parent {
            None => None,
            Some(p) => enclosing_select(nodes, p, (fuel - 1) as nat),
        }
    }
}

/// Whether option `option_id` of select `select_id` is disabled.
pub fn option_is_disabled(doc: &BaseDocument, select_id: usize, option_id: usize) -> (res: bool)
    requires
        doc.wf(),
        option_id < doc.nodes@.len(),
    ensures
        res == option_disabled_spec(doc.nodes@, select_id, option_id),
{
    let node = &doc.nodes[option_id];
    if node.attr("disabled").is_some() {
        return true;
    }
    let mut current = node.parent;
    let mut fuel: usize = doc.nodes.len();
    while fuel > 0
        invariant
            doc.wf(),
            option_disabled_spec(doc.nodes@, select_id, option_id) == optgroup_disabled(
                doc.nodes@,
                select_id,
                current,
                fuel as nat,
            ),
            current matches Some(p) ==> p < doc.nodes@.len(),
        decreases fuel,
    {
        match current {
            None => {
                return false;
            },
            Some(parent_id) => {
                if parent_id == select_id {
                    return false;
                }
                let parent = &doc.nodes[parent_id];
                if parent.is_element_with_tag_name("optgroup") && parent.attr("disabled").is_some() {
                    return true;
                }
                proof {
                    assert(links_below(doc.nodes@[parent_id as int], doc.nodes@.len()));
                }
                current = parent.parent;
                fuel = fuel - 1;
            },
        }
    }
    false
}

/// The value an option submits.
pub fn option_value(doc: &BaseDocument, option_id: usize) -> (res: String)
    requires
        option_id < doc.nodes@.len(),
    ensures
        res@ == option_value_spec(doc.nodes@, option_id),
{
    match doc.nodes[option_id].attr("value") {
        Some(v) => v.clone(),
        None => doc.text_content(option_id),
    }
}

/// The label an option shows.
pub fn option_label(doc: &BaseDocument, option_id: usize) -> (res: String)
    requires
        option_id < doc.nodes@.len(),
    ensures
        res@ == option_label_spec(doc.nodes@, option_id),
{
    match doc.nodes[option_id].attr("label") {
        Some(v) => v.clone(),
        None => doc.text_content(option_id),
    }
}

// ---------------------------------------------------------------------
// Deriving a select's state from the document
// ---------------------------------------------------------------------

/// The first position `k >= from` where `flags` holds.
pub open spec fn first_true_from(flags: Seq<bool>, from: int) -> Option<int>
    decreases flags.len() - from,
{
    if from < 0 || from >= flags.len() {
        None
    } else if flags[from] {
        Some(from)
    } else {
        first_true_from(flags, from + 1)
    }
}

/// When `flags[k]` is `p(s[k])` everywhere, the first set flag is at the first
/// position whose element satisfies `p`.
proof fn lemma_first_true_agrees(flags: Seq<bool>, s: Seq<usize>, p: spec_fn(usize) -> bool, from: int)
    requires
        flags.len() == s.len(),
        0 <= from,
        forall|k: int| 0 <= k < s.len() ==> flags[k] == p(#[trigger] s[k]),
    ensures
        first_true_from(flags, from) == first_pos_from(s, p, from),
    decreases s.len() - from,
{
    if from < s.len() {
        lemma_first_true_agrees(flags, s, p, from + 1);
    }
}

/// The position of the first `true` in `flags`.
pub fn first_true(flags: &Vec<bool>) -> (res: Option<usize>)
    ensures
        match res {
            Some(r) => first_true_from(flags@, 0) == Some(r as int) && r < flags@.len() && flags@[r as int],
            None => first_true_from(flags@, 0) is None,
        },
{
    let mut k: usize = 0;
    while k < flags.len()
        invariant
            k <= flags@.len(),
            first_true_from(flags@, 0) == first_true_from(flags@, k as int),
        decreases flags@.len() - k,
    {
        if flags[k] {
            return Some(k);
        }
        k = k + 1;
    }
    None
}

/// Whether node `id` is one of the options that select `select_id` lists:
/// an `<option>` element below it, other than the select itself.
pub open spec fn is_listed_option(nodes: Seq<DomNode>, select_id: usize, id: usize) -> bool {
    id != select_id && id < nodes.len() && is_element_named(nodes[id as int], "option"@)
}

/// The listed options among `ids`, in order.
pub open spec fn listed_options_in(nodes: Seq<DomNode>, select_id: usize, ids: Seq<usize>) -> Seq<usize>
    decreases ids.len(),
{
    if ids.len() == 0 {
        Seq::empty()
    } else {
        let rest = listed_options_in(nodes, select_id, ids.drop_last());
        if is_listed_option(nodes, select_id, ids.last()) {
            rest.push(ids.last())
        } else {
            rest
        }
    }
}

/// The options of select `select_id`, in document order.
pub open spec fn listed_options(nodes: Seq<DomNode>, select_id: usize) -> Seq<usize> {
    listed_options_in(nodes, select_id, preorder(nodes, select_id, nodes.len()))
}

/// The option data an option node carries, or the default one.
pub open spec fn existing_option_data(node: DomNode) -> OptionData {
    match option_data_of(node) {
        Some(o) => o,
        None => OptionData { selected: false, default_selected: false },
    }
}

/// An option's selectedness as its `selected` attribute states it, or as it was.
pub open spec fn attr_selected(node: DomNode) -> bool {
    match node_attr(node, "selected"@) {
        Some(v) => truthy(v),
        None => existing_option_data(node).selected,
    }
}

/// An option's default selectedness as its `initial_selected` attribute
/// states it, or as it was.
pub open spec fn attr_default_selected(node: DomNode) -> bool {
    match node_attr(node, "initial_selected"@) {
        Some(v) => truthy(v),
        None => existing_option_data(node).default_selected,
    }
}

/// The mode of a select node (dropdown for anything that is not an element).
pub open spec fn node_select_mode(node: DomNode) -> SelectMode {
    match element_of(node) {
        Some(e) => select_mode_spec(e),
        None => SelectMode::Dropdown,
    }
}

/// Options whose value is `v`.
pub open spec fn has_value(nodes: Seq<DomNode>, v: Seq<char>) -> spec_fn(usize) -> bool {
    |id: usize| option_value_spec(nodes, id) == v
}

/// Options whose attributes mark them selected.
pub open spec fn marked_selected(nodes: Seq<DomNode>) -> spec_fn(usize) -> bool {
    |id: usize| attr_selected(nodes[id as int])
}

/// Options of select `select_id` that are not disabled.
pub open spec fn is_enabled(nodes: Seq<DomNode>, select_id: usize) -> spec_fn(usize) -> bool {
    |id: usize| !option_disabled_spec(nodes, select_id, id)
}

/// Options of select `select_id` that end up selected.
pub open spec fn ends_selected(nodes: Seq<DomNode>, select_id: usize) -> spec_fn(usize) -> bool {
    |id: usize| synced_flag(nodes, select_id, id)
}

/// The option a dropdown selects: the first whose value is the select's
/// `value` attribute when it has one, else the first marked selected;
/// failing that, the first enabled option.
pub open spec fn dropdown_choice(nodes: Seq<DomNode>, select_id: usize) -> Option<usize> {
    let opts = listed_options(nodes, select_id);
    let found = match node_attr(nodes[select_id as int], "value"@) {
        Some(v) => first_elem(opts, has_value(nodes, v)),
        None => first_elem(opts, marked_selected(nodes)),
    };
    match found {
        Some(id) => Some(id),
        None => first_elem(opts, is_enabled(nodes, select_id)),
    }
}

/// Whether option `id` ends up selected: for a dropdown, when it is the
/// dropdown's choice; for a list box, when its attributes mark it selected.
pub open spec fn synced_flag(nodes: Seq<DomNode>, select_id: usize, id: usize) -> bool {
    if node_select_mode(nodes[select_id as int]) == SelectMode::Dropdown {
        dropdown_choice(nodes, select_id) == Some(id)
    } else {
        attr_selected(nodes[id as int])
    }
}

/// The option data that option `id` of select `select_id` ends up with.
pub open spec fn synced_option_data(nodes: Seq<DomNode>, select_id: usize, id: usize) -> OptionData {
    OptionData {
        selected: synced_flag(nodes, select_id, id),
        default_selected: attr_default_selected(nodes[id as int]),
    }
}

/// The number of rows a select shows: a positive `size` attribute, else one
/// row for a dropdown and one per option (at least one) for a list box.
pub open spec fn visible_rows_spec(nodes: Seq<DomNode>, select_id: usize) -> usize {
    let size = match node_attr(nodes[select_id as int], "size"@) {
        Some(v) => parse_usize_spec(v),
        None => None,
    };
    let count = listed_options(nodes, select_id).len();
    match size {
        Some(n) => if n > 0 {
            n
        } else if node_select_mode(nodes[select_id as int]) == SelectMode::Dropdown {
            1
        } else if count == 0 {
            1
        } else {
            count as usize
        },
        None => if node_select_mode(nodes[select_id as int]) == SelectMode::Dropdown {
            1
        } else if count == 0 {
            1
        } else {
            count as usize
        },
    }
}

/// The active option after a sync: the previous one if there was one, else
/// the first selected option.
pub open spec fn synced_active(nodes: Seq<DomNode>, select_id: usize, prev: Option<SelectData>) -> Option<usize> {
    let first = match first_pos(listed_options(nodes, select_id), ends_selected(nodes, select_id)) {
        Some(k) => Some(k as usize),
        None => None,
    };
    match prev {
        Some(p) => match p.active_index {
            Some(a) => Some(a),
            None => first,
        },
        None => first,
    }
}

/// Whether `sd` is the select data that syncing select `select_id` of
/// `nodes` produces, given its previous select data `prev`.
pub open spec fn select_synced(sd: SelectData, nodes: Seq<DomNode>, select_id: usize, prev: Option<SelectData>) -> bool {
    let opts = listed_options(nodes, select_id);
    let mode = node_select_mode(nodes[select_id as int]);
    &&& sd.mode == mode
    &&& sd.open == ((prev matches Some(p) && p.open) && mode == SelectMode::Dropdown)
    &&& sd.active_index == synced_active(nodes, select_id, prev)
    &&& sd.anchor_index == sd.active_index
    &&& sd.visible_rows == visible_rows_spec(nodes, select_id)
    &&& sd.popup_rows == (if opts.len() == 0 { 1 } else { opts.len() })
    &&& sd.options@.len() == opts.len()
    &&& forall|k: int|
        0 <= k < opts.len() ==> {
            &&& (#[trigger] sd.options@[k]).node_id == opts[k]
            &&& sd.options@[k].value@ == option_value_spec(nodes, opts[k])
            &&& sd.options@[k].label@ == option_label_spec(nodes, opts[k])
            &&& sd.options@[k].disabled == option_disabled_spec(nodes, select_id, opts[k])
        }
}

/// Whether `after` is what syncing select `select_id` makes of `nodes`: each
/// listed option gets its settled option data, the select gets select data
/// derived from the options, and nothing else changes.
pub open spec fn synced_into(nodes: Seq<DomNode>, select_id: usize, after: Seq<DomNode>) -> bool {
    let opts = listed_options(nodes, select_id);
    &&& after.len() == nodes.len()
    &&& forall|i: int|
        0 <= i < nodes.len() && i != select_id ==> #[trigger] after[i] == (if opts.contains(i as usize) {
            with_special(nodes[i], SpecialElementData::Option(synced_option_data(nodes, select_id, i as usize)))
        } else {
            nodes[i]
        })
    &&& same_node_shape(after[select_id as int], nodes[select_id as int])
    &&& select_data_of(after[select_id as int]) matches Some(sd) && select_synced(
        sd,
        nodes,
        select_id,
        select_data_of(nodes[select_id as int]),
    )
}

/// A listed option is an option node below the select.
pub proof fn lemma_listed_options_in(nodes: Seq<DomNode>, select_id: usize, ids: Seq<usize>)
    ensures
        forall|k: int|
            0 <= k < listed_options_in(nodes, select_id, ids).len() ==> is_listed_option(
                nodes,
                select_id,
                #[trigger] listed_options_in(nodes, select_id, ids)[k],
            ),
    decreases ids.len(),
{
    if ids.len() > 0 {
        lemma_listed_options_in(nodes, select_id, ids.drop_last());
        let rest = listed_options_in(nodes, select_id, ids.drop_last());
        let all = listed_options_in(nodes, select_id, ids);
        assert forall|k: int| 0 <= k < all.len() implies is_listed_option(nodes, select_id, #[trigger] all[k]) by {
            if k < rest.len() {
                assert(all[k] == rest[k]);
            }
        }
    }
}

/// What one pass over a select's subtree finds out about its options.
struct OptionScan {
    ids: Vec<usize>,
    selected: Vec<bool>,
    default_selected: Vec<bool>,
    options: Vec<SelectOption>,
}

/// Whether `scan` describes the first `len` listed options among `ids`.
spec fn scan_matches(scan: OptionScan, nodes: Seq<DomNode>, select_id: usize, opts: Seq<usize>) -> bool {
    &&& scan.ids@ == opts
    &&& scan.selected@.len() == opts.len()
    &&& scan.default_selected@.len() == opts.len()
    &&& scan.options@.len() == opts.len()
    &&& forall|k: int|
        0 <= k < opts.len() ==> {
            &&& is_listed_option(nodes, select_id, #[trigger] opts[k])
            &&& scan.selected@[k] == attr_selected(nodes[opts[k] as int])
            &&& scan.default_selected@[k] == attr_default_selected(nodes[opts[k] as int])
            &&& scan.options@[k].node_id == opts[k]
            &&& scan.options@[k].value@ == option_value_spec(nodes, opts[k])
            &&& scan.options@[k].label@ == option_label_spec(nodes, opts[k])
            &&& scan.options@[k].disabled == option_disabled_spec(nodes, select_id, opts[k])
        }
}

impl BaseDocument {
    /// Reads every listed option of select `select_id`.
    fn scan_options(&self, select_id: usize) -> (scan: OptionScan)
        requires
            self.wf(),
        ensures
            scan_matches(scan, self.nodes@, select_id, listed_options(self.nodes@, select_id)),
    {
        let ghost nodes = self.nodes@;
        let mut order: Vec<usize> = Vec::new();
        self.collect_preorder(select_id, self.nodes.len(), &mut order);
        assert(order@ =~= preorder(nodes, select_id, nodes.len()));
        let mut scan = OptionScan {
            ids: Vec::new(),
            selected: Vec::new(),
            default_selected: Vec::new(),
            options: Vec::new(),
        };
        let mut i: usize = 0;
        while i < order.len()
            invariant
                self.wf(),
                nodes == self.nodes@,
                i <= order@.len(),
                order@ == preorder(nodes, select_id, nodes.len()),
                scan_matches(scan, nodes, select_id, listed_options_in(nodes, select_id, order@.subrange(0, i as int))),
            decreases order@.len() - i,
        {
            let id = order[i];
            let ghost before = order@.subrange(0, i as int);
            assert(order@.subrange(0, i + 1).drop_last() =~= before);
            assert(order@.subrange(0, i + 1).last() == id);
            let listed: Option<&ElementData> = if id != select_id && id < self.nodes.len() {
                match self.nodes[id].element_data() {
                    Some(e) => if e.is_named("option") {
                        Some(e)
                    } else {
                        None
                    },
                    None => None,
                }
            } else {
                None
            };
            assert(listed is Some <==> is_listed_option(nodes, select_id, id));
            if let Some(element) = listed {
                let existing = match element.option_data() {
                    Some(o) => *o,
                    None => OptionData::default(),
                };
                let default_selected = match truthy_attr(element, "initial_selected") {
                    Some(b) => b,
                    None => existing.default_selected,
                };
                let selected = match truthy_attr(element, "selected") {
                    Some(b) => b,
                    None => existing.selected,
                };
                let label = option_label(self, id);
                let value = option_value(self, id);
                let disabled = option_is_disabled(self, select_id, id);
                scan.ids.push(id);
                scan.selected.push(selected);
                scan.default_selected.push(default_selected);
                scan.options.push(SelectOption { node_id: id, value, label, disabled });
                proof {
                    let opts = listed_options_in(nodes, select_id, order@.subrange(0, i + 1));
                    assert(opts == listed_options_in(nodes, select_id, before).push(id));
                    assert(scan.ids@ =~= opts);
                    assert forall|k: int| 0 <= k < opts.len() implies {
                        &&& is_listed_option(nodes, select_id, #[trigger] opts[k])
                        &&& scan.selected@[k] == attr_selected(nodes[opts[k] as int])
                        &&& scan.default_selected@[k] == attr_default_selected(nodes[opts[k] as int])
                        &&& scan.options@[k].node_id == opts[k]
                        &&& scan.options@[k].value@ == option_value_spec(nodes, opts[k])
                        &&& scan.options@[k].label@ == option_label_spec(nodes, opts[k])
                        &&& scan.options@[k].disabled == option_disabled_spec(nodes, select_id, opts[k])
                    } by {
                        if k == opts.len() - 1 {
                            assert(opts[k] == id);
                        } else {
                            assert(opts[k] == listed_options_in(nodes, select_id, before)[k]);
                        }
                    }
                }
            } else {
                assert(listed_options_in(nodes, select_id, order@.subrange(0, i + 1)) == listed_options_in(
                    nodes,
                    select_id,
                    before,
                ));
            }
            i = i + 1;
        }
        assert(order@.subrange(0, order@.len() as int) =~= order@);
        scan
    }
}

impl BaseDocument {
    /// The option a dropdown selects (see `dropdown_choice`).
    fn choose_dropdown_option(&self, select_id: usize, scan: &OptionScan, controlled: Option<&String>) -> (res: Option<usize>)
        requires
            select_id < self.nodes@.len(),
            scan_matches(*scan, self.nodes@, select_id, listed_options(self.nodes@, select_id)),
            match node_attr(self.nodes@[select_id as int], "value"@) {
                Some(v) => controlled matches Some(c) && c@ == v,
                None => controlled is None,
            },
        ensures
            res == dropdown_choice(self.nodes@, select_id),
    {
        let ghost nodes = self.nodes@;
        let ghost opts = listed_options(nodes, select_id);
        let n = scan.ids.len();
        let mut wanted: Vec<bool> = Vec::new();
        let mut k: usize = 0;
        while k < n
            invariant
                n == scan.ids@.len(),
                select_id < nodes.len(),
                scan_matches(*scan, nodes, select_id, opts),
                match node_attr(nodes[select_id as int], "value"@) {
                    Some(v) => controlled matches Some(c) && c@ == v,
                    None => controlled is None,
                },
                k <= n,
                wanted@.len() == k,
                forall|j: int|
                    0 <= j < k ==> wanted@[j] == match node_attr(nodes[select_id as int], "value"@) {
                        Some(v) => option_value_spec(nodes, #[trigger] opts[j]) == v,
                        None => attr_selected(nodes[opts[j] as int]),
                    },
            decreases n - k,
        {
            let flag = match controlled {
                Some(c) => str_eq(scan.options[k].value.as_str(), c.as_str()),
                None => scan.selected[k],
            };
            wanted.push(flag);
            k = k + 1;
        }
        let found = first_true(&wanted);
        proof {
            match node_attr(nodes[select_id as int], "value"@) {
                Some(v) => lemma_first_true_agrees(wanted@, opts, has_value(nodes, v), 0),
                None => lemma_first_true_agrees(wanted@, opts, marked_selected(nodes), 0),
            }
        }
        match found {
            Some(pos) => {
                Some(scan.ids[pos])
            },
            None => {
                let mut enabled: Vec<bool> = Vec::new();
                let mut k: usize = 0;
                while k < n
                    invariant
                        n == scan.ids@.len(),
                        scan_matches(*scan, nodes, select_id, opts),
                        k <= n,
                        enabled@.len() == k,
                        forall|j: int|
                            0 <= j < k ==> enabled@[j] == !option_disabled_spec(nodes, select_id, #[trigger] opts[j]),
                    decreases n - k,
                {
                    enabled.push(!scan.options[k].disabled);
                    k = k + 1;
                }
                proof {
                    lemma_first_true_agrees(enabled@, opts, is_enabled(nodes, select_id), 0);
                }
                match first_true(&enabled) {
                    Some(pos) => Some(scan.ids[pos]),
                    None => None,
                }
            },
        }
    }

    /// Rebuilds the state of select `select_id` from the document: collects its
    /// options, settles which are selected, and records mode, rows and the
    /// active option. Does nothing when the node is not a `<select>` element.
    pub fn sync_select_control(&mut self, select_id: usize)
        requires
            old(self).wf(),
            select_id < old(self).nodes@.len(),
        ensures
            final(self).wf(),
            !is_element_named(old(self).nodes@[select_id as int], "select"@) ==> *final(self) == *old(self),
            is_element_named(old(self).nodes@[select_id as int], "select"@) ==> {
                &&& synced_into(old(self).nodes@, select_id, final(self).nodes@)
                &&& final(self).open_select_id == old(self).open_select_id
                &&& final(self).changed_nodes == old(self).changed_nodes
                &&& final(self).redraw_requested == old(self).redraw_requested
                &&& final(self).focus_node_id == old(self).focus_node_id
                &&& final(self).controls_to_form == old(self).controls_to_form
            },
    {
        let ghost nodes = self.nodes@;
        let n = self.nodes.len();
        let element = match self.nodes[select_id].element_data() {
            Some(e) => e,
            None => {
                return ;
            },
        };
        if !element.is_named("select") {
            return ;
        }
        let mode = select_mode(element);
        let size = parsed_size(element);
        let controlled: Option<String> = match element.attr("value") {
            Some(v) => Some(v.clone()),
            None => None,
        };
        let (previous_open, previous_active) = match element.select_data() {
            Some(sd) => (sd.open, sd.active_index),
            None => (false, None),
        };
        let scan = self.scan_options(select_id);
        let ghost opts = listed_options(nodes, select_id);
        let choice = match mode {
            SelectMode::Dropdown => self.choose_dropdown_option(select_id, &scan, controlled.as_ref()),
            SelectMode::Listbox => None,
        };
        let count = scan.ids.len();
        proof {
            lemma_listed_options_in(nodes, select_id, preorder(nodes, select_id, nodes.len()));
        }
        // Write each option's settled state.
        let mut flags: Vec<bool> = Vec::new();
        let mut k: usize = 0;
        while k < count
            invariant
                self.wf(),
                self.nodes@.len() == n,
                n == nodes.len(),
                select_id < n,
                count == opts.len(),
                scan_matches(scan, nodes, select_id, opts),
                forall|j: int| 0 <= j < opts.len() ==> is_listed_option(nodes, select_id, #[trigger] opts[j]),
                mode == node_select_mode(nodes[select_id as int]),
                mode == SelectMode::Dropdown ==> choice == dropdown_choice(nodes, select_id),
                k <= count,
                flags@.len() == k,
                forall|j: int| 0 <= j < k ==> flags@[j] == synced_flag(nodes, select_id, #[trigger] opts[j]),
                forall|i: int|
                    0 <= i < n ==> #[trigger] self.nodes@[i] == (if opts.subrange(0, k as int).contains(i as usize) {
                        with_special(nodes[i], SpecialElementData::Option(synced_option_data(nodes, select_id, i as usize)))
                    } else {
                        nodes[i]
                    }),
                self.open_select_id == old(self).open_select_id,
                self.changed_nodes == old(self).changed_nodes,
                self.redraw_requested == old(self).redraw_requested,
                self.focus_node_id == old(self).focus_node_id,
                self.controls_to_form == old(self).controls_to_form,
            decreases count - k,
        {
            let id = scan.ids[k];
            let flag = match mode {
                SelectMode::Dropdown => match choice {
                    Some(c) => c == id,
                    None => false,
                },
                SelectMode::Listbox => scan.selected[k],
            };
            let ghost before = self.nodes@;
            self.set_special_data(
                id,
                SpecialElementData::Option(OptionData { selected: flag, default_selected: scan.default_selected[k] }),
            );
            flags.push(flag);
            proof {
                let sub = opts.subrange(0, k as int);
                let sub1 = opts.subrange(0, k + 1);
                assert(sub1 =~= sub.push(id));
                assert forall|i: int| 0 <= i < n implies #[trigger] self.nodes@[i] == (if sub1.contains(i as usize) {
                    with_special(nodes[i], SpecialElementData::Option(synced_option_data(nodes, select_id, i as usize)))
                } else {
                    nodes[i]
                }) by {
                    if i == id {
                        assert(sub1[k as int] == id);
                    } else {
                        assert(sub1.contains(i as usize) == sub.contains(i as usize)) by {
                            if sub1.contains(i as usize) {
                                let w = choose|w: int| 0 <= w < sub1.len() && sub1[w] == i as usize;
                                assert(sub[w] == i as usize);
                            }
                            if sub.contains(i as usize) {
                                let w = choose|w: int| 0 <= w < sub.len() && sub[w] == i as usize;
                                assert(sub1[w] == i as usize);
                            }
                        }
                        assert(self.nodes@[i] == before[i]);
                    }
                }
            }
            k = k + 1;
        }
        let first_selected = first_true(&flags);
        proof {
            lemma_first_true_agrees(flags@, opts, ends_selected(nodes, select_id), 0);
        }
        let active_index = match previous_active {
            Some(a) => Some(a),
            None => first_selected,
        };
        let visible_rows = match size {
            Some(rows) if rows > 0 => rows,
            _ => match mode {
                SelectMode::Dropdown => 1,
                SelectMode::Listbox => if count == 0 {
                    1
                } else {
                    count
                },
            },
        };
        let popup_rows = if count == 0 {
            1
        } else {
            count
        };
        let open = previous_open && match mode {
            SelectMode::Dropdown => true,
            SelectMode::Listbox => false,
        };
        let data = SelectData {
            mode,
            open,
            active_index,
            anchor_index: active_index,
            visible_rows,
            popup_rows,
            options: scan.options,
        };
        let ghost before = self.nodes@;
        proof {
            assert forall|j: int| 0 <= j < data.options@.len() implies #[trigger] data.options@[j].node_id < n by {
                assert(is_listed_option(nodes, select_id, opts[j]));
            }
            assert(!opts.subrange(0, count as int).contains(select_id)) by {
                if opts.subrange(0, count as int).contains(select_id) {
                    let w = choose|w: int| 0 <= w < count && opts.subrange(0, count as int)[w] == select_id;
                    assert(is_listed_option(nodes, select_id, opts[w]));
                }
            }
            assert(before[select_id as int] == nodes[select_id as int]);
        }
        self.set_special_data(select_id, SpecialElementData::Select(data));
        proof {
            assert(opts.subrange(0, count as int) =~= opts);
            assert forall|i: int| 0 <= i < n && i != select_id implies #[trigger] self.nodes@[i] == (if opts.contains(i as usize) {
                with_special(nodes[i], SpecialElementData::Option(synced_option_data(nodes, select_id, i as usize)))
            } else {
                nodes[i]
            }) by {
                assert(self.nodes@[i] == before[i]);
            }
        }
    }
}

// ---------------------------------------------------------------------
// Reading a select's state
// ---------------------------------------------------------------------

/// The node ids of the options `sd` lists.
pub open spec fn option_node_ids(sd: SelectData) -> Seq<usize> {
    sd.options@.map_values(|o: SelectOption| o.node_id)
}

/// Option nodes of `nodes` that are marked selected.
pub open spec fn node_is_selected(nodes: Seq<DomNode>) -> spec_fn(usize) -> bool {
    |id: usize| node_selected(nodes, id as int)
}

/// The positions `k < upto` of `sd`'s options whose nodes are marked selected, in order.
pub open spec fn selected_positions(nodes: Seq<DomNode>, sd: SelectData, upto: int) -> Seq<usize>
    decreases upto,
{
    if upto <= 0 {
        Seq::empty()
    } else {
        let rest = selected_positions(nodes, sd, upto - 1);
        if node_selected(nodes, sd.options@[upto - 1].node_id as int) {
            rest.push((upto - 1) as usize)
        } else {
            rest
        }
    }
}

/// The positions of the options of select `select_id` whose nodes are marked
/// selected (empty when it has no select data).
pub open spec fn selected_indices(nodes: Seq<DomNode>, select_id: usize) -> Seq<usize> {
    match select_data_of(nodes[select_id as int]) {
        Some(sd) => selected_positions(nodes, sd, sd.options@.len() as int),
        None => Seq::empty(),
    }
}

/// The first position `k >= from` of an enabled option.
pub open spec fn first_enabled_from(options: Seq<SelectOption>, from: int) -> Option<int>
    decreases options.len() - from,
{
    if from < 0 || from >= options.len() {
        None
    } else if !options[from].disabled {
        Some(from)
    } else {
        first_enabled_from(options, from + 1)
    }
}

/// The last position `k < upto` of an enabled option.
pub open spec fn last_enabled_before(options: Seq<SelectOption>, upto: int) -> Option<int>
    decreases upto,
{
    if upto <= 0 || upto > options.len() {
        None
    } else if !options[upto - 1].disabled {
        Some(upto - 1)
    } else {
        last_enabled_before(options, upto - 1)
    }
}

/// `Option<int>` as `Option<usize>`.
pub open spec fn as_usize_opt(o: Option<int>) -> Option<usize> {
    match o {
        Some(k) => Some(k as usize),
        None => None,
    }
}

/// The value that a select stands for: that of its first selected option,
/// else that of its active option.
pub open spec fn primary_value(nodes: Seq<DomNode>, select_id: usize) -> Option<Seq<char>> {
    match select_data_of(nodes[select_id as int]) {
        None => None,
        Some(sd) => {
            let sel = selected_indices(nodes, select_id);
            let index = if sel.len() > 0 {
                Some(sel[0])
            } else {
                sd.active_index
            };
            match index {
                Some(i) => if i < sd.options@.len() {
                    Some(sd.options@[i as int].value@)
                } else {
                    None
                },
                None => None,
            }
        },
    }
}

/// The positions of the enabled options whose nodes are marked selected, in order.
pub open spec fn form_positions(nodes: Seq<DomNode>, sd: SelectData, upto: int) -> Seq<usize>
    decreases upto,
{
    if upto <= 0 {
        Seq::empty()
    } else {
        let rest = form_positions(nodes, sd, upto - 1);
        let o = sd.options@[upto - 1];
        if !o.disabled && node_selected(nodes, o.node_id as int) {
            rest.push((upto - 1) as usize)
        } else {
            rest
        }
    }
}

/// What a select submits: the (value, label) of each enabled selected option.
pub open spec fn form_values_spec(nodes: Seq<DomNode>, select_id: usize) -> Seq<(Seq<char>, Seq<char>)> {
    match select_data_of(nodes[select_id as int]) {
        Some(sd) => form_positions(nodes, sd, sd.options@.len() as int).map_values(
            |k: usize| (sd.options@[k as int].value@, sd.options@[k as int].label@),
        ),
        None => Seq::empty(),
    }
}

pub proof fn lemma_selected_positions_bound(nodes: Seq<DomNode>, sd: SelectData, upto: int)
    requires
        upto <= sd.options@.len(),
    ensures
        forall|j: int|
            0 <= j < selected_positions(nodes, sd, upto).len() ==> #[trigger] selected_positions(
                nodes,
                sd,
                upto,
            )[j] < upto,
    decreases upto,
{
    if upto > 0 {
        lemma_selected_positions_bound(nodes, sd, upto - 1);
        let rest = selected_positions(nodes, sd, upto - 1);
        let all = selected_positions(nodes, sd, upto);
        assert forall|j: int| 0 <= j < all.len() implies #[trigger] all[j] < upto by {
            if j < rest.len() {
                assert(all[j] == rest[j]);
            }
        }
    }
}

proof fn lemma_form_positions_bound(nodes: Seq<DomNode>, sd: SelectData, upto: int)
    requires
        upto <= sd.options@.len(),
    ensures
        forall|j: int|
            0 <= j < form_positions(nodes, sd, upto).len() ==> #[trigger] form_positions(nodes, sd, upto)[j]
                < upto,
    decreases upto,
{
    if upto > 0 {
        lemma_form_positions_bound(nodes, sd, upto - 1);
        let rest = form_positions(nodes, sd, upto - 1);
        let all = form_positions(nodes, sd, upto);
        assert forall|j: int| 0 <= j < all.len() implies #[trigger] all[j] < upto by {
            if j < rest.len() {
                assert(all[j] == rest[j]);
            }
        }
    }
}

impl BaseDocument {
    /// The select whose dropdown popup is open, if any.
    pub fn open_select_popup_id(&self) -> (res: Option<usize>)
        ensures
            res == self.open_select_id,
    {
        self.open_select_id
    }

    /// Whether select `select_id` has a `multiple` attribute.
    pub fn select_is_multiple(&self, select_id: usize) -> (res: bool)
        requires
            select_id < self.nodes@.len(),
        ensures
            res == (node_attr(self.nodes@[select_id as int], "multiple"@) is Some),
    {
        self.nodes[select_id].attr("multiple").is_some()
    }

    /// The active option of select `select_id`.
    pub fn select_active_index(&self, select_id: usize) -> (res: Option<usize>)
        requires
            select_id < self.nodes@.len(),
        ensures
            res == match select_data_of(self.nodes@[select_id as int]) {
                Some(sd) => sd.active_index,
                None => None,
            },
    {
        match self.select_data_at(select_id) {
            Some(sd) => sd.active_index,
            None => None,
        }
    }

    /// The position of the first enabled option of select `select_id`.
    pub fn first_enabled_select_index(&self, select_id: usize) -> (res: Option<usize>)
        requires
            select_id < self.nodes@.len(),
        ensures
            res == match select_data_of(self.nodes@[select_id as int]) {
                Some(sd) => as_usize_opt(first_enabled_from(sd.options@, 0)),
                None => None,
            },
    {
        let sd = match self.select_data_at(select_id) {
            Some(sd) => sd,
            None => {
                return None;
            },
        };
        let mut k: usize = 0;
        while k < sd.options.len()
            invariant
                select_id < self.nodes@.len(),
                select_data_of(self.nodes@[select_id as int]) == Some(*sd),
                k <= sd.options@.len(),
                first_enabled_from(sd.options@, 0) == first_enabled_from(sd.options@, k as int),
            decreases sd.options@.len() - k,
        {
            if !sd.options[k].disabled {
                return Some(k);
            }
            k = k + 1;
        }
        None
    }

    /// The position of the last enabled option of select `select_id`.
    pub fn last_enabled_select_index(&self, select_id: usize) -> (res: Option<usize>)
        requires
            select_id < self.nodes@.len(),
        ensures
            res == match select_data_of(self.nodes@[select_id as int]) {
                Some(sd) => as_usize_opt(last_enabled_before(sd.options@, sd.options@.len() as int)),
                None => None,
            },
    {
        let sd = match self.select_data_at(select_id) {
            Some(sd) => sd,
            None => {
                return None;
            },
        };
        let mut k: usize = sd.options.len();
        while k > 0
            invariant
                select_id < self.nodes@.len(),
                select_data_of(self.nodes@[select_id as int]) == Some(*sd),
                k <= sd.options@.len(),
                last_enabled_before(sd.options@, sd.options@.len() as int) == last_enabled_before(
                    sd.options@,
                    k as int,
                ),
            decreases k,
        {
            if !sd.options[k - 1].disabled {
                return Some(k - 1);
            }
            k = k - 1;
        }
        None
    }

    /// The positions of the options of select `select_id` that are selected.
    pub fn selected_option_indices(&self, select_id: usize) -> (res: Vec<usize>)
        requires
            self.wf(),
            select_id < self.nodes@.len(),
        ensures
            res@ == selected_indices(self.nodes@, select_id),
    {
        let sd = match self.select_data_at(select_id) {
            Some(sd) => sd,
            None => {
                return Vec::new();
            },
        };
        proof {
            assert(links_below(self.nodes@[select_id as int], self.nodes@.len()));
        }
        let mut res: Vec<usize> = Vec::new();
        let mut k: usize = 0;
        while k < sd.options.len()
            invariant
                self.wf(),
                select_data_of(self.nodes@[select_id as int]) == Some(*sd),
                forall|j: int| 0 <= j < sd.options@.len() ==> #[trigger] sd.options@[j].node_id < self.nodes@.len(),
                k <= sd.options@.len(),
                res@ == selected_positions(self.nodes@, *sd, k as int),
            decreases sd.options@.len() - k,
        {
            if option_node_selected(&self.nodes, sd.options[k].node_id) {
                res.push(k);
            }
            k = k + 1;
        }
        res
    }

    /// The value select `select_id` stands for (see `primary_value`).
    pub fn primary_select_value(&self, select_id: usize) -> (res: Option<String>)
        requires
            self.wf(),
            select_id < self.nodes@.len(),
        ensures
            match res {
                Some(v) => primary_value(self.nodes@, select_id) == Some(v@),
                None => primary_value(self.nodes@, select_id) is None,
            },
    {
        let sd = match self.select_data_at(select_id) {
            Some(sd) => sd,
            None => {
                return None;
            },
        };
        let selected = self.selected_option_indices(select_id);
        let index = if selected.len() > 0 {
            selected[0]
        } else {
            match sd.active_index {
                Some(i) => i,
                None => {
                    return None;
                },
            }
        };
        if index < sd.options.len() {
            Some(sd.options[index].value.clone())
        } else {
            None
        }
    }

    /// The (value, label) of each enabled, selected option of select `select_id`.
    pub fn select_form_values(&self, select_id: usize) -> (res: Vec<(String, String)>)
        requires
            self.wf(),
            select_id < self.nodes@.len(),
        ensures
            res@.len() == form_values_spec(self.nodes@, select_id).len(),
            forall|j: int|
                0 <= j < res@.len() ==> (#[trigger] res@[j]).0@ == form_values_spec(self.nodes@, select_id)[j].0
                    && res@[j].1@ == form_values_spec(self.nodes@, select_id)[j].1,
    {
        let sd = match self.select_data_at(select_id) {
            Some(sd) => sd,
            None => {
                return Vec::new();
            },
        };
        proof {
            assert(links_below(self.nodes@[select_id as int], self.nodes@.len()));
        }
        let ghost nodes = self.nodes@;
        let mut res: Vec<(String, String)> = Vec::new();
        let mut k: usize = 0;
        while k < sd.options.len()
            invariant
                self.wf(),
                nodes == self.nodes@,
                select_data_of(nodes[select_id as int]) == Some(*sd),
                forall|j: int| 0 <= j < sd.options@.len() ==> #[trigger] sd.options@[j].node_id < nodes.len(),
                k <= sd.options@.len(),
                res@.len() == form_positions(nodes, *sd, k as int).len(),
                forall|j: int|
                    0 <= j < res@.len() ==> (#[trigger] res@[j]).0@ == sd.options@[form_positions(
                        nodes,
                        *sd,
                        k as int,
                    )[j] as int].value@ && res@[j].1@ == sd.options@[form_positions(
                        nodes,
                        *sd,
                        k as int,
                    )[j] as int].label@,
            decreases sd.options@.len() - k,
        {
            let option = &sd.options[k];
            if !option.disabled && option_node_selected(&self.nodes, option.node_id) {
                res.push((option.value.clone(), option.label.clone()));
            }
            proof {
                let prev = form_positions(nodes, *sd, k as int);
                let next = form_positions(nodes, *sd, k + 1);
                assert forall|j: int| 0 <= j < res@.len() implies (#[trigger] res@[j]).0@ == sd.options@[next[j] as int].value@
                    && res@[j].1@ == sd.options@[next[j] as int].label@ by {
                    if j < prev.len() {
                        assert(next[j] == prev[j]);
                    }
                }
            }
            k = k + 1;
        }
        proof {
            lemma_form_positions_bound(nodes, *sd, sd.options@.len() as int);
        }
        res
    }
}

// ---------------------------------------------------------------------
// Opening, closing and moving through a select
// ---------------------------------------------------------------------

/// `node` with the open flag of its select data set to `open`.
pub open spec fn with_open(node: DomNode, open: bool) -> DomNode {
    match select_data_of(node) {
        Some(sd) => with_select_state(node, open, sd.active_index, sd.anchor_index),
        None => node,
    }
}

/// The nodes after closing the open select popup, if any.
pub open spec fn closed_nodes(doc: &BaseDocument) -> Seq<DomNode> {
    match doc.open_select_id {
        Some(s) => doc.nodes@.update(s as int, with_open(doc.nodes@[s as int], false)),
        None => doc.nodes@,
    }
}

/// Whether closing the open select popup changes anything: there is one,
/// and its select data says it is open.
pub open spec fn close_changes(doc: &BaseDocument) -> bool {
    doc.open_select_id matches Some(s) && select_data_of(doc.nodes@[s as int]) matches Some(sd) && sd.open
}

/// The changed-node set after closing the open select popup.
pub open spec fn closed_changed(doc: &BaseDocument) -> Set<usize> {
    if close_changes(doc) {
        doc.changed_nodes@.insert(doc.open_select_id->0)
    } else {
        doc.changed_nodes@
    }
}

/// The position of the first option of `sd` whose node is marked selected.
pub open spec fn first_selected_pos(nodes: Seq<DomNode>, sd: SelectData) -> Option<usize> {
    as_usize_opt(first_pos(option_node_ids(sd), node_is_selected(nodes)))
}

/// Whether select `select_id` of `nodes` opens: a dropdown that is closed.
pub open spec fn opens(nodes: Seq<DomNode>, select_id: usize) -> bool {
    select_data_of(nodes[select_id as int]) matches Some(sd) && sd.mode == SelectMode::Dropdown && !sd.open
}

/// The nodes after opening select `select_id` (given already-closed `nodes`).
pub open spec fn opened_nodes(nodes: Seq<DomNode>, select_id: usize) -> Seq<DomNode> {
    match select_data_of(nodes[select_id as int]) {
        Some(sd) => if sd.mode == SelectMode::Dropdown {
            let active = match sd.active_index {
                Some(a) => Some(a),
                None => first_selected_pos(nodes, sd),
            };
            nodes.update(select_id as int, with_select_state(nodes[select_id as int], true, active, sd.anchor_index))
        } else {
            nodes
        },
        None => nodes,
    }
}

impl BaseDocument {
    /// The position of the first option of `sd` (the select data of node
    /// `select_id`) whose node is marked selected.
    pub fn first_selected_option(&self, select_id: usize, sd: &SelectData) -> (res: Option<usize>)
        requires
            self.wf(),
            select_id < self.nodes@.len(),
            select_data_of(self.nodes@[select_id as int]) == Some(*sd),
        ensures
            res == first_selected_pos(self.nodes@, *sd),
            res matches Some(k) ==> k < sd.options@.len(),
    {
        proof {
            assert(links_below(self.nodes@[select_id as int], self.nodes@.len()));
        }
        let ghost ids = option_node_ids(*sd);
        let mut flags: Vec<bool> = Vec::new();
        let mut k: usize = 0;
        while k < sd.options.len()
            invariant
                self.wf(),
                forall|j: int| 0 <= j < sd.options@.len() ==> #[trigger] sd.options@[j].node_id < self.nodes@.len(),
                ids == option_node_ids(*sd),
                k <= sd.options@.len(),
                flags@.len() == k,
                forall|j: int| 0 <= j < k ==> flags@[j] == node_selected(self.nodes@, #[trigger] ids[j] as int),
            decreases sd.options@.len() - k,
        {
            flags.push(option_node_selected(&self.nodes, sd.options[k].node_id));
            k = k + 1;
        }
        proof {
            lemma_first_true_agrees(flags@, ids, node_is_selected(self.nodes@), 0);
        }
        first_true(&flags)
    }

    /// Closes the open select popup, if any. Returns whether a popup was open.
    pub fn close_open_select(&mut self) -> (changed: bool)
        requires
            old(self).wf(),
        ensures
            final(self).wf(),
            changed == close_changes(old(self)),
            final(self).nodes@ == closed_nodes(old(self)),
            final(self).open_select_id is None,
            final(self).changed_nodes@ == closed_changed(old(self)),
            final(self).redraw_requested == (old(self).redraw_requested || changed),
            final(self).focus_node_id == old(self).focus_node_id,
            final(self).controls_to_form == old(self).controls_to_form,
    {
        let select_id = match self.open_select_id {
            Some(s) => s,
            None => {
                return false;
            },
        };
        self.open_select_id = None;
        let changed = match self.select_data_at(select_id) {
            Some(sd) => {
                let was_open = sd.open;
                let active = sd.active_index;
                let anchor = sd.anchor_index;
                self.set_select_state(select_id, false, active, anchor);
                was_open
            },
            None => false,
        };
        if changed {
            self.mark_changed(select_id);
        }
        proof {
            assert(self.nodes@ =~= closed_nodes(old(self)));
        }
        changed
    }

    /// Closes any open popup, then opens the dropdown `select_id`, making its
    /// first selected option active when none is. Returns whether it opened.
    pub fn open_select(&mut self, select_id: usize) -> (changed: bool)
        requires
            old(self).wf(),
            select_id < old(self).nodes@.len(),
        ensures
            final(self).wf(),
            changed == opens(closed_nodes(old(self)), select_id),
            final(self).nodes@ == opened_nodes(closed_nodes(old(self)), select_id),
            final(self).open_select_id == (if changed { Some(select_id) } else { None }),
            final(self).changed_nodes@ == (if changed {
                closed_changed(old(self)).insert(select_id)
            } else {
                closed_changed(old(self))
            }),
            final(self).redraw_requested == (old(self).redraw_requested || close_changes(old(self)) || changed),
            final(self).focus_node_id == old(self).focus_node_id,
            final(self).controls_to_form == old(self).controls_to_form,
    {
        let _ = self.close_open_select();
        let ghost mid = self.nodes@;
        let changed = match self.select_data_at(select_id) {
            Some(sd) => {
                let default_active = self.first_selected_option(select_id, sd);
                match sd.mode {
                    SelectMode::Dropdown => {
                        let was_open = sd.open;
                        let active = match sd.active_index {
                            Some(a) => Some(a),
                            None => default_active,
                        };
                        let anchor = sd.anchor_index;
                        self.set_select_state(select_id, true, active, anchor);
                        !was_open
                    },
                    SelectMode::Listbox => false,
                }
            },
            None => false,
        };
        if changed {
            self.open_select_id = Some(select_id);
            self.mark_changed(select_id);
        }
        proof {
            assert(self.nodes@ =~= opened_nodes(mid, select_id));
        }
        changed
    }

    /// Makes option `index` of select `select_id` the active one, when it
    /// exists and is enabled. Returns whether the active option changed.
    pub fn set_select_active(&mut self, select_id: usize, index: usize) -> (changed: bool)
        requires
            old(self).wf(),
            select_id < old(self).nodes@.len(),
        ensures
            final(self).wf(),
            match select_data_of(old(self).nodes@[select_id as int]) {
                Some(sd) => if index < sd.options@.len() && !sd.options@[index as int].disabled {
                    &&& changed == (sd.active_index != Some(index))
                    &&& final(self).nodes@ == old(self).nodes@.update(
                        select_id as int,
                        with_select_state(old(self).nodes@[select_id as int], sd.open, Some(index), sd.anchor_index),
                    )
                } else {
                    !changed && final(self).nodes@ == old(self).nodes@
                },
                None => !changed && final(self).nodes@ == old(self).nodes@,
            },
            final(self).changed_nodes@ == (if changed {
                old(self).changed_nodes@.insert(select_id)
            } else {
                old(self).changed_nodes@
            }),
            final(self).redraw_requested == (old(self).redraw_requested || changed),
            final(self).open_select_id == old(self).open_select_id,
            final(self).focus_node_id == old(self).focus_node_id,
            final(self).controls_to_form == old(self).controls_to_form,
    {
        let sd = match self.select_data_at(select_id) {
            Some(sd) => sd,
            None => {
                return false;
            },
        };
        if index >= sd.options.len() || sd.options[index].disabled {
            return false;
        }
        let changed = match sd.active_index {
            Some(a) => a != index,
            None => true,
        };
        let open = sd.open;
        let anchor = sd.anchor_index;
        self.set_select_state(select_id, open, Some(index), anchor);
        if changed {
            self.mark_changed(select_id);
        }
        changed
    }
}

/// Where a walk through the options ends.
pub enum MoveOutcome {
    /// On the enabled option at this position.
    Lands(usize),
    /// Every step landed on a disabled option.
    Stuck,
    /// A step's position does not fit in `isize`.
    Overflows,
}

/// `x` brought into `lo..=hi`.
pub open spec fn clamp_int(x: int, lo: int, hi: int) -> int {
    if x < lo {
        lo
    } else if x > hi {
        hi
    } else {
        x
    }
}

/// Walks from position `current` by `delta` at most `steps` times, clamping to
/// the options, until it reaches an enabled option.
pub open spec fn move_walk(options: Seq<SelectOption>, current: int, delta: int, steps: nat) -> MoveOutcome
    decreases steps,
{
    if steps == 0 {
        MoveOutcome::Stuck
    } else {
        let next = current + delta;
        if next < isize::MIN || next > isize::MAX {
            MoveOutcome::Overflows
        } else {
            let c = clamp_int(next, 0, options.len() - 1);
            if !options[c].disabled {
                MoveOutcome::Lands(c as usize)
            } else {
                move_walk(options, c, delta, (steps - 1) as nat)
            }
        }
    }
}

/// Where a move through select `select_id` starts: its active option, else
/// its first selected option, else the top.
pub open spec fn move_start(nodes: Seq<DomNode>, select_id: usize, sd: SelectData) -> usize {
    match sd.active_index {
        Some(a) => a,
        None => {
            let sel = selected_indices(nodes, select_id);
            if sel.len() > 0 {
                sel[0]
            } else {
                0
            }
        },
    }
}

/// The outcome of moving through select `select_id` by `delta`.
pub open spec fn move_outcome(nodes: Seq<DomNode>, select_id: usize, sd: SelectData, delta: isize) -> MoveOutcome {
    move_walk(
        sd.options@,
        (move_start(nodes, select_id, sd) as isize) as int,
        delta as int,
        sd.options@.len(),
    )
}

impl BaseDocument {
    /// Moves the active option of select `select_id` by `delta` rows, skipping
    /// disabled options and stopping at the ends. Returns whether it changed.
    #[verifier::loop_isolation(false)]
    pub fn move_select_active(&mut self, select_id: usize, delta: isize) -> (changed: bool)
        requires
            old(self).wf(),
            select_id < old(self).nodes@.len(),
            select_data_of(old(self).nodes@[select_id as int]) matches Some(sd) ==> {
                &&& sd.options@.len() <= isize::MAX
                &&& (sd.options@.len() > 0 ==> !(move_outcome(old(self).nodes@, select_id, sd, delta) is Overflows))
            },
        ensures
            final(self).wf(),
            match select_data_of(old(self).nodes@[select_id as int]) {
                Some(sd) => match (if sd.options@.len() > 0 {
                    move_outcome(old(self).nodes@, select_id, sd, delta)
                } else {
                    MoveOutcome::Stuck
                }) {
                    MoveOutcome::Lands(c) => {
                        &&& changed == (sd.active_index != Some(c))
                        &&& final(self).nodes@ == old(self).nodes@.update(
                            select_id as int,
                            with_select_state(old(self).nodes@[select_id as int], sd.open, Some(c), sd.anchor_index),
                        )
                    },
                    _ => !changed && final(self).nodes@ == old(self).nodes@,
                },
                None => !changed && final(self).nodes@ == old(self).nodes@,
            },
            final(self).changed_nodes@ == (if changed {
                old(self).changed_nodes@.insert(select_id)
            } else {
                old(self).changed_nodes@
            }),
            final(self).redraw_requested == (old(self).redraw_requested || changed),
            final(self).open_select_id == old(self).open_select_id,
            final(self).focus_node_id == old(self).focus_node_id,
            final(self).controls_to_form == old(self).controls_to_form,
    {
        let sd = match self.select_data_at(select_id) {
            Some(sd) => sd,
            None => {
                return false;
            },
        };
        let start = match sd.active_index {
            Some(a) => a,
            None => {
                let selected = self.selected_option_indices(select_id);
                if selected.len() > 0 {
                    selected[0]
                } else {
                    0
                }
            },
        };
        let len = sd.options.len();
        if len == 0 {
            return false;
        }
        let hi: isize = (len - 1) as isize;
        let ghost outcome = move_outcome(self.nodes@, select_id, *sd, delta);
        let mut current: isize = start as isize;
        let mut i: usize = 0;
        while i < len
            invariant
                self.wf(),
                *self == *old(self),
                select_data_of(self.nodes@[select_id as int]) == Some(*sd),
                len == sd.options@.len(),
                0 < len <= isize::MAX,
                hi == len - 1,
                i <= len,
                !(outcome is Overflows),
                outcome == move_walk(sd.options@, current as int, delta as int, (len - i) as nat),
            decreases len - i,
        {
            let next = current + delta;
            current = if next < 0 {
                0
            } else if next > hi {
                hi
            } else {
                next
            };
            let candidate = current as usize;
            if !sd.options[candidate].disabled {
                let changed = match sd.active_index {
                    Some(a) => a != candidate,
                    None => true,
                };
                let open = sd.open;
                let anchor = sd.anchor_index;
                self.set_select_state(select_id, open, Some(candidate), anchor);
                if changed {
                    self.mark_changed(select_id);
                }
                return changed;
            }
            i = i + 1;
        }
        false
    }
}

// ---------------------------------------------------------------------
// Choosing options
// ---------------------------------------------------------------------

/// Whether the option `o` at position `k` changes when the positions
/// `indices` are chosen: it is enabled, its node carries option data, and its
/// selectedness differs from whether `k` is chosen.
pub open spec fn write_changes(nodes: Seq<DomNode>, o: SelectOption, k: int, indices: Seq<usize>) -> bool {
    &&& !o.disabled
    &&& o.node_id < nodes.len()
    &&& option_data_of(nodes[o.node_id as int]) matches Some(d)
    &&& d.selected != indices.contains(k as usize)
}

/// The nodes after choosing `indices` among `options[..upto]`, one option at a time.
pub open spec fn applied_indices(nodes: Seq<DomNode>, options: Seq<SelectOption>, indices: Seq<usize>, upto: int) -> Seq<DomNode>
    decreases upto,
{
    if upto <= 0 {
        nodes
    } else {
        let prev = applied_indices(nodes, options, indices, upto - 1);
        let o = options[upto - 1];
        if write_changes(prev, o, upto - 1, indices) {
            prev.update(
                o.node_id as int,
                with_option_selected(prev[o.node_id as int], indices.contains((upto - 1) as usize)),
            )
        } else {
            prev
        }
    }
}

/// The option nodes that change while choosing `indices` among `options[..upto]`.
pub open spec fn applied_changes(nodes: Seq<DomNode>, options: Seq<SelectOption>, indices: Seq<usize>, upto: int) -> Set<usize>
    decreases upto,
{
    if upto <= 0 {
        Set::empty()
    } else {
        let prev = applied_changes(nodes, options, indices, upto - 1);
        if write_changes(applied_indices(nodes, options, indices, upto - 1), options[upto - 1], upto - 1, indices) {
            prev.insert(options[upto - 1].node_id)
        } else {
            prev
        }
    }
}

/// The options of select `select_id` (empty when it has none).
pub open spec fn options_of(nodes: Seq<DomNode>, select_id: usize) -> Seq<SelectOption> {
    match select_data_of(nodes[select_id as int]) {
        Some(sd) => sd.options@,
        None => Seq::empty(),
    }
}

/// The nodes after choosing `indices` of select `select_id`: the options'
/// selectedness, then the active and anchor options (the first chosen one).
pub open spec fn chosen_nodes(nodes: Seq<DomNode>, select_id: usize, indices: Seq<usize>) -> Seq<DomNode> {
    let opts = options_of(nodes, select_id);
    let mid = applied_indices(nodes, opts, indices, opts.len() as int);
    match select_data_of(mid[select_id as int]) {
        Some(sd) => {
            let active = if indices.len() > 0 {
                Some(indices[0])
            } else {
                sd.active_index
            };
            let anchor = if indices.len() > 0 {
                Some(indices[0])
            } else {
                sd.anchor_index
            };
            mid.update(select_id as int, with_select_state(mid[select_id as int], sd.open, active, anchor))
        },
        None => mid,
    }
}

/// Whether `e` is an input or change event (per `change`) for `target` carrying `value`.
pub open spec fn is_value_event(e: DomEvent, target: usize, change: bool, value: Seq<char>) -> bool {
    &&& e.target == target
    &&& if change {
        e.data matches DomEventData::Change(ev) && ev.value@ == value
    } else {
        e.data matches DomEventData::Input(ev) && ev.value@ == value
    }
}

/// How choosing `indices` of select `select_id` turns `old` into `new`,
/// appending to the events `old_events` to give `new_events`, and
/// reporting `changed`.
pub open spec fn indices_applied(
    old: &BaseDocument,
    new: &BaseDocument,
    select_id: usize,
    indices: Seq<usize>,
    old_events: Seq<DomEvent>,
    new_events: Seq<DomEvent>,
    changed: bool,
) -> bool {
    let opts = options_of(old.nodes@, select_id);
    let changes = applied_changes(old.nodes@, opts, indices, opts.len() as int);
    let value = match primary_value(new.nodes@, select_id) {
        Some(v) => v,
        None => Seq::empty(),
    };
    &&& new.wf()
    &&& changed == !changes.is_empty()
    &&& new.nodes@ == chosen_nodes(old.nodes@, select_id, indices)
    &&& new.changed_nodes@ == (if changed {
        old.changed_nodes@.union(changes).insert(select_id)
    } else {
        old.changed_nodes@
    })
    &&& new.redraw_requested == (old.redraw_requested || changed)
    &&& new.open_select_id == old.open_select_id
    &&& new.focus_node_id == old.focus_node_id
    &&& new.controls_to_form == old.controls_to_form
    &&& if changed {
        &&& new_events.len() == old_events.len() + 2
        &&& new_events.subrange(0, old_events.len() as int) == old_events
        &&& is_value_event(new_events[old_events.len() as int], select_id, false, value)
        &&& is_value_event(new_events[old_events.len() as int + 1], select_id, true, value)
    } else {
        new_events == old_events
    }
}

/// Whether `x` occurs in `s`.
pub fn slice_contains(s: &[usize], x: usize) -> (res: bool)
    ensures
        res == s@.contains(x),
{
    let mut i: usize = 0;
    while i < s.len()
        invariant
            i <= s@.len(),
            forall|j: int| 0 <= j < i ==> s@[j] != x,
        decreases s@.len() - i,
    {
        if s[i] == x {
            assert(s@[i as int] == x);
            return true;
        }
        i = i + 1;
    }
    false
}

proof fn lemma_applied_len(nodes: Seq<DomNode>, options: Seq<SelectOption>, indices: Seq<usize>, upto: int)
    ensures
        applied_indices(nodes, options, indices, upto).len() == nodes.len(),
    decreases upto,
{
    if upto > 0 {
        lemma_applied_len(nodes, options, indices, upto - 1);
    }
}

impl BaseDocument {
    /// Selects exactly the enabled options of select `select_id` whose
    /// positions are in `indices` (disabled ones keep their state), makes the
    /// first of `indices` active, and when anything changed appends an input
    /// and a change event carrying the select's value to `events`.
    /// Returns whether any option changed.
    pub fn set_select_indices(&mut self, select_id: usize, indices: &[usize], events: &mut Vec<DomEvent>) -> (changed: bool)
        requires
            old(self).wf(),
            select_id < old(self).nodes@.len(),
        ensures
            indices_applied(old(self), final(self), select_id, indices@, old(events)@, final(events)@, changed),
    {
        let ghost nodes0 = self.nodes@;
        let ghost opts = options_of(nodes0, select_id);
        let mut ids: Vec<usize> = Vec::new();
        let mut disabled: Vec<bool> = Vec::new();
        match self.select_data_at(select_id) {
            Some(sd) => {
                proof {
                    assert(links_below(nodes0[select_id as int], nodes0.len()));
                }
                let mut k: usize = 0;
                while k < sd.options.len()
                    invariant
                        opts == sd.options@,
                        k <= opts.len(),
                        ids@.len() == k,
                        disabled@.len() == k,
                        forall|j: int| 0 <= j < k ==> #[trigger] ids@[j] == opts[j].node_id,
                        forall|j: int| 0 <= j < k ==> #[trigger] disabled@[j] == opts[j].disabled,
                    decreases opts.len() - k,
                {
                    ids.push(sd.options[k].node_id);
                    disabled.push(sd.options[k].disabled);
                    k = k + 1;
                }
            },
            None => {},
        }
        let count = ids.len();
        let mut changed = false;
        let mut k: usize = 0;
        while k < count
            invariant
                self.wf(),
                select_id < nodes0.len(),
                opts == options_of(nodes0, select_id),
                count == opts.len(),
                ids@.len() == count,
                disabled@.len() == count,
                forall|j: int| 0 <= j < count ==> #[trigger] ids@[j] == opts[j].node_id,
                forall|j: int| 0 <= j < count ==> #[trigger] disabled@[j] == opts[j].disabled,
                forall|j: int| 0 <= j < count ==> #[trigger] opts[j].node_id < nodes0.len(),
                k <= count,
                self.nodes@ == applied_indices(nodes0, opts, indices@, k as int),
                changed == !applied_changes(nodes0, opts, indices@, k as int).is_empty(),
                self.changed_nodes@ == old(self).changed_nodes@.union(applied_changes(nodes0, opts, indices@, k as int)),
                self.redraw_requested == old(self).redraw_requested,
                self.open_select_id == old(self).open_select_id,
                self.focus_node_id == old(self).focus_node_id,
                self.controls_to_form == old(self).controls_to_form,
                nodes0 == old(self).nodes@,
            decreases count - k,
        {
            proof {
                lemma_applied_len(nodes0, opts, indices@, k as int);
            }
            let ghost prev_nodes = self.nodes@;
            let ghost prev_changed = self.changed_nodes@;
            let ghost writes = write_changes(prev_nodes, opts[k as int], k as int, indices@);
            if !disabled[k] {
                let should_select = slice_contains(indices, k);
                let id = ids[k];
                let current = match self.nodes[id].element_data() {
                    Some(e) => match e.option_data() {
                        Some(o) => Some(o.selected),
                        None => None,
                    },
                    None => None,
                };
                match current {
                    Some(selected) => {
                        if selected != should_select {
                            self.set_option_selected(id, should_select);
                            self.changed_nodes.insert(id);
                            changed = true;
                        }
                    },
                    None => {},
                }
            }
            proof {
                let prev = applied_changes(nodes0, opts, indices@, k as int);
                let next = applied_changes(nodes0, opts, indices@, k + 1);
                assert(applied_indices(nodes0, opts, indices@, k + 1) == if writes {
                    prev_nodes.update(
                        opts[k as int].node_id as int,
                        with_option_selected(prev_nodes[opts[k as int].node_id as int], indices@.contains(k as usize)),
                    )
                } else {
                    prev_nodes
                });
                if writes {
                    assert(next == prev.insert(opts[k as int].node_id));
                    assert(next.contains(opts[k as int].node_id));
                    assert(self.changed_nodes@ == prev_changed.insert(opts[k as int].node_id));
                } else {
                    assert(next == prev);
                    assert(self.changed_nodes@ == prev_changed);
                }
                assert(self.changed_nodes@ =~= old(self).changed_nodes@.union(next));
            }
            k = k + 1;
        }
        proof {
            lemma_applied_len(nodes0, opts, indices@, count as int);
        }
        let ghost mid = self.nodes@;
        match self.select_data_at(select_id) {
            Some(sd) => {
                let active = if indices.len() > 0 {
                    Some(indices[0])
                } else {
                    sd.active_index
                };
                let anchor = if indices.len() > 0 {
                    Some(indices[0])
                } else {
                    sd.anchor_index
                };
                let open = sd.open;
                self.set_select_state(select_id, open, active, anchor);
            },
            None => {},
        }
        proof {
            assert(self.nodes@ =~= chosen_nodes(nodes0, select_id, indices@));
            if !changed {
                assert(self.changed_nodes@ =~= old(self).changed_nodes@);
            }
        }
        if changed {
            self.mark_changed(select_id);
            let value = match self.primary_select_value(select_id) {
                Some(v) => v,
                None => String::new(),
            };
            events.push(DomEvent { target: select_id, data: DomEventData::Input(BlitzInputEvent { value: value.clone() }) });
            events.push(DomEvent { target: select_id, data: DomEventData::Change(BlitzInputEvent { value }) });
            proof {
                assert(final(events)@.subrange(0, old(events)@.len() as int) =~= old(events)@);
            }
        }
        proof {
            let opts2 = options_of(old(self).nodes@, select_id);
            let changes = applied_changes(old(self).nodes@, opts2, indices@, opts2.len() as int);
            assert(opts2 == opts);
            assert(changed == !changes.is_empty());
            assert(self.nodes@ == chosen_nodes(old(self).nodes@, select_id, indices@));
            assert(self.changed_nodes@ == (if changed {
                old(self).changed_nodes@.union(changes).insert(select_id)
            } else {
                old(self).changed_nodes@
            }));
            assert(self.redraw_requested == (old(self).redraw_requested || changed));
            assert(self.wf());
        }
        changed
    }
}

/// `s` without any occurrence of `x`.
pub open spec fn without_value(s: Seq<usize>, x: usize) -> Seq<usize>
    decreases s.len(),
{
    if s.len() == 0 {
        Seq::empty()
    } else {
        let rest = without_value(s.drop_last(), x);
        if s.last() == x {
            rest
        } else {
            rest.push(s.last())
        }
    }
}

/// `x` placed in `s` before the first element that is not smaller than it.
pub open spec fn insert_sorted(s: Seq<usize>, x: usize) -> Seq<usize>
    decreases s.len(),
{
    if s.len() == 0 {
        seq![x]
    } else if x <= s[0] {
        seq![x] + s
    } else {
        seq![s[0]] + insert_sorted(s.drop_first(), x)
    }
}

/// The positions chosen when position `x` is toggled in the chosen positions `s`.
pub open spec fn toggled(s: Seq<usize>, x: usize) -> Seq<usize> {
    if s.contains(x) {
        without_value(s, x)
    } else {
        insert_sorted(s, x)
    }
}

/// The positions that activating option `index` of select `select_id` chooses:
/// just that option in a dropdown; in a list box, the selected options with
/// `index` toggled.
pub open spec fn activation_indices(nodes: Seq<DomNode>, select_id: usize, index: usize) -> Seq<usize> {
    match select_data_of(nodes[select_id as int]) {
        Some(sd) => if sd.mode == SelectMode::Listbox {
            toggled(selected_indices(nodes, select_id), index)
        } else {
            seq![index]
        },
        None => seq![index],
    }
}

proof fn lemma_insert_sorted_split(s: Seq<usize>, x: usize, p: int)
    requires
        0 <= p <= s.len(),
        forall|j: int| 0 <= j < p ==> #[trigger] s[j] < x,
        p < s.len() ==> s[p] >= x,
    ensures
        insert_sorted(s, x) == s.take(p) + seq![x] + s.skip(p),
    decreases p,
{
    if p == 0 {
        assert(s.take(0) + seq![x] + s.skip(0) =~= seq![x] + s);
    } else {
        let t = s.drop_first();
        assert forall|j: int| 0 <= j < p - 1 implies #[trigger] t[j] < x by {
            assert(t[j] == s[j + 1]);
        }
        lemma_insert_sorted_split(t, x, p - 1);
        assert(seq![s[0]] + (t.take(p - 1) + seq![x] + t.skip(p - 1)) =~= s.take(p) + seq![x] + s.skip(p));
    }
}

/// `s` with `x` inserted before its first element not smaller than `x`.
fn insert_in_order(s: &Vec<usize>, x: usize) -> (res: Vec<usize>)
    ensures
        res@ == insert_sorted(s@, x),
{
    let mut res: Vec<usize> = Vec::new();
    let mut i: usize = 0;
    while i < s.len() && s[i] < x
        invariant
            i <= s@.len(),
            res@ == s@.take(i as int),
            forall|j: int| 0 <= j < i ==> #[trigger] s@[j] < x,
        decreases s@.len() - i,
    {
        res.push(s[i]);
        assert(s@.take(i + 1) =~= s@.take(i as int).push(s@[i as int]));
        i = i + 1;
    }
    let ghost p = i as int;
    res.push(x);
    while i < s.len()
        invariant
            0 <= p <= i <= s@.len(),
            res@ == s@.take(p) + seq![x] + s@.subrange(p, i as int),
        decreases s@.len() - i,
    {
        res.push(s[i]);
        assert(s@.subrange(p, i + 1) =~= s@.subrange(p, i as int).push(s@[i as int]));
        i = i + 1;
    }
    proof {
        lemma_insert_sorted_split(s@, x, p);
        assert(s@.subrange(p, s@.len() as int) =~= s@.skip(p));
    }
    res
}

/// `s` without any occurrence of `x`.
fn remove_value(s: &Vec<usize>, x: usize) -> (res: Vec<usize>)
    ensures
        res@ == without_value(s@, x),
{
    let mut res: Vec<usize> = Vec::new();
    let mut i: usize = 0;
    while i < s.len()
        invariant
            i <= s@.len(),
            res@ == without_value(s@.take(i as int), x),
        decreases s@.len() - i,
    {
        assert(s@.take(i + 1).drop_last() =~= s@.take(i as int));
        if s[i] != x {
            res.push(s[i]);
        }
        i = i + 1;
    }
    assert(s@.take(s@.len() as int) =~= s@);
    res
}

impl BaseDocument {
    /// Activates option `index` of select `select_id`: a dropdown selects just
    /// it; a list box toggles it among the selected options.
    /// Returns whether any option changed (see `set_select_indices`).
    pub fn activate_select_index(&mut self, select_id: usize, index: usize, events: &mut Vec<DomEvent>) -> (changed: bool)
        requires
            old(self).wf(),
            select_id < old(self).nodes@.len(),
        ensures
            indices_applied(
                old(self),
                final(self),
                select_id,
                activation_indices(old(self).nodes@, select_id, index),
                old(events)@,
                final(events)@,
                changed,
            ),
    {
        let mode = match self.select_data_at(select_id) {
            Some(sd) => sd.mode,
            None => SelectMode::Dropdown,
        };
        match mode {
            SelectMode::Dropdown => {
                let mut only: Vec<usize> = Vec::new();
                only.push(index);
                assert(only@ =~= seq![index]);
                self.set_select_indices(select_id, only.as_slice(), events)
            },
            SelectMode::Listbox => {
                let selected = self.selected_option_indices(select_id);
                let indices = if slice_contains(selected.as_slice(), index) {
                    remove_value(&selected, index)
                } else {
                    insert_in_order(&selected, index)
                };
                self.set_select_indices(select_id, indices.as_slice(), events)
            },
        }
    }
}

// ---------------------------------------------------------------------
// Type-ahead search
// ---------------------------------------------------------------------

/// Whether `s` begins with `p`.
pub open spec fn has_prefix(s: Seq<char>, p: Seq<char>) -> bool {
    p.len() <= s.len() && s.subrange(0, p.len() as int) == p
}

/// Whether option `o` is enabled and its lowercased label begins with `lower_prefix`.
pub open spec fn label_matches(o: SelectOption, lower_prefix: Seq<char>) -> bool {
    !o.disabled && has_prefix(lowercase(o.label@), lower_prefix)
}

/// The option a search starts after: the active one, else the first selected one.
pub open spec fn search_base(nodes: Seq<DomNode>, select_id: usize, sd: SelectData) -> Option<usize> {
    match sd.active_index {
        Some(a) => Some(a),
        None => {
            let sel = selected_indices(nodes, select_id);
            if sel.len() > 0 {
                Some(sel[0])
            } else {
                None
            }
        },
    }
}

/// The position a search starts at: just after its base, else the top.
pub open spec fn search_start(nodes: Seq<DomNode>, select_id: usize, sd: SelectData) -> int {
    match search_base(nodes, select_id, sd) {
        Some(b) => b + 1,
        None => 0,
    }
}

/// The first position, going round from `start + offset`, whose option matches.
pub open spec fn prefix_scan(options: Seq<SelectOption>, start: int, lower_prefix: Seq<char>, offset: int) -> Option<usize>
    decreases options.len() - offset,
{
    if offset < 0 || offset >= options.len() {
        None
    } else {
        let idx = (start + offset) % (options.len() as int);
        if label_matches(options[idx], lower_prefix) {
            Some(idx as usize)
        } else {
            prefix_scan(options, start, lower_prefix, offset + 1)
        }
    }
}

/// Whether every raw position `start + offset` the scan computes fits in `usize`.
pub open spec fn prefix_scan_fits(options: Seq<SelectOption>, start: int, lower_prefix: Seq<char>, offset: int) -> bool
    decreases options.len() - offset,
{
    if offset < 0 || offset >= options.len() {
        true
    } else {
        &&& start + offset <= usize::MAX
        &&& (label_matches(options[(start + offset) % (options.len() as int)], lower_prefix)
            || prefix_scan_fits(options, start, lower_prefix, offset + 1))
    }
}

/// The option that typing `prefix` in select `select_id` moves to.
pub open spec fn prefix_search(nodes: Seq<DomNode>, select_id: usize, prefix: Seq<char>) -> Option<usize> {
    match select_data_of(nodes[select_id as int]) {
        None => None,
        Some(sd) => if prefix.len() == 0 {
            None
        } else {
            prefix_scan(sd.options@, search_start(nodes, select_id, sd), lowercase(prefix), 0)
        },
    }
}

/// Whether the search's position arithmetic stays within `usize`.
pub open spec fn prefix_search_fits(nodes: Seq<DomNode>, select_id: usize, prefix: Seq<char>) -> bool {
    match select_data_of(nodes[select_id as int]) {
        None => true,
        Some(sd) => prefix.len() == 0 || {
            &&& (search_base(nodes, select_id, sd) matches Some(b) ==> b < usize::MAX)
            &&& prefix_scan_fits(sd.options@, search_start(nodes, select_id, sd), lowercase(prefix), 0)
        },
    }
}

/// Whether every position a prefix search of select `select_id` can reach
/// fits in `usize`, by sizes alone: the start, and the start plus the
/// number of options less one.
pub open spec fn search_positions_fit(nodes: Seq<DomNode>, select_id: usize) -> bool {
    match select_data_of(nodes[select_id as int]) {
        None => true,
        Some(sd) => {
            &&& (search_base(nodes, select_id, sd) matches Some(b) ==> b < usize::MAX)
            &&& search_start(nodes, select_id, sd) + sd.options@.len() <= usize::MAX + 1
        },
    }
}

proof fn lemma_prefix_scan_fits(options: Seq<SelectOption>, start: int, lower_prefix: Seq<char>, offset: int)
    requires
        0 <= offset,
        start + options.len() <= usize::MAX + 1,
    ensures
        prefix_scan_fits(options, start, lower_prefix, offset),
    decreases options.len() - offset,
{
    if offset < options.len() {
        lemma_prefix_scan_fits(options, start, lower_prefix, offset + 1);
    }
}

/// When the positions a prefix search can reach fit in `usize` by sizes
/// alone, the search's arithmetic fits, whatever the prefix.
pub proof fn lemma_prefix_search_fits(nodes: Seq<DomNode>, select_id: usize, prefix: Seq<char>)
    requires
        search_positions_fit(nodes, select_id),
    ensures
        prefix_search_fits(nodes, select_id, prefix),
{
    match select_data_of(nodes[select_id as int]) {
        None => {},
        Some(sd) => {
            lemma_prefix_scan_fits(sd.options@, search_start(nodes, select_id, sd), lowercase(prefix), 0);
        },
    }
}

impl BaseDocument {
    /// The next enabled option of select `select_id`, going round from just
    /// after the active (else first selected) option, whose label starts
    /// with `prefix`, ignoring case.
    pub fn find_select_option_by_prefix(&self, select_id: usize, prefix: &str) -> (res: Option<usize>)
        requires
            self.wf(),
            select_id < self.nodes@.len(),
            prefix_search_fits(self.nodes@, select_id, prefix@),
        ensures
            res == prefix_search(self.nodes@, select_id, prefix@),
    {
        let sd = match self.select_data_at(select_id) {
            Some(sd) => sd,
            None => {
                return None;
            },
        };
        if prefix.unicode_len() == 0 {
            return None;
        }
        let lower_prefix = to_lowercase(prefix);
        let base = match sd.active_index {
            Some(a) => Some(a),
            None => {
                let selected = self.selected_option_indices(select_id);
                if selected.len() > 0 {
                    Some(selected[0])
                } else {
                    None
                }
            },
        };
        let start = match base {
            Some(b) => b + 1,
            None => 0,
        };
        let len = sd.options.len();
        let ghost options = sd.options@;
        let mut offset: usize = 0;
        while offset < len
            invariant
                len == options.len(),
                options == sd.options@,
                select_id < self.nodes@.len(),
                select_data_of(self.nodes@[select_id as int]) == Some(*sd),
                prefix@.len() > 0,
                lower_prefix@ == lowercase(prefix@),
                start as int == search_start(self.nodes@, select_id, *sd),
                offset <= len,
                prefix_scan(options, start as int, lower_prefix@, 0) == prefix_scan(options, start as int, lower_prefix@, offset as int),
                prefix_scan_fits(options, start as int, lower_prefix@, offset as int),
            decreases len - offset,
        {
            let index = (start + offset) % len;
            let option = &sd.options[index];
            if !option.disabled {
                let label = to_lowercase(option.label.as_str());
                if starts_with(label.as_str(), lower_prefix.as_str()) {
                    return Some(index);
                }
            }
            offset = offset + 1;
        }
        None
    }
}

impl BaseDocument {
    /// The nearest `<select>` at or above node `node_id`.
    pub fn enclosing_select_id(&self, node_id: usize) -> (res: Option<usize>)
        ensures
            res == enclosing_select(self.nodes@, node_id, self.nodes@.len()),
    {
        let mut cur = node_id;
        let mut fuel: usize = self.nodes.len();
        loop
            invariant
                enclosing_select(self.nodes@, cur, fuel as nat) == enclosing_select(
                    self.nodes@,
                    node_id,
                    self.nodes@.len(),
                ),
            decreases fuel,
        {
            if fuel == 0 {
                return None;
            }
            let node = match self.get_node(cur) {
                Some(n) => n,
                None => {
                    return None;
                },
            };
            if node.is_element_with_tag_name("select") {
                return Some(cur);
            }
            match node.parent {
                Some(p) => {
                    cur = p;
                },
                None => {
                    return None;
                },
            }
            fuel = fuel - 1;
        }
    }
}

} // verus!
