//! Syncing a `<select>` a second time changes nothing: the state it derives
//! is a fixed point of the derivation.

use vstd::prelude::*;

use crate::dom::{
    DomNode, NodeData, OptionData, SelectData, SelectMode, SpecialElementData, element_of,
    elem_attr, is_element_named, node_attr, option_data_of, preorder, preorder_list,
    same_node_shape, select_data_of, text_content, text_content_list, with_special,
};
use crate::select::{
    attr_default_selected, attr_selected, dropdown_choice, ends_selected, existing_option_data,
    first_elem, first_pos, first_pos_from, has_value, is_enabled, is_listed_option,
    lemma_first_pos_from, lemma_listed_options_in, listed_options, listed_options_in,
    marked_selected, node_select_mode, optgroup_disabled, option_disabled_spec,
    option_label_spec, option_value_spec, select_mode_spec, synced_active, synced_flag,
    synced_into, synced_option_data, truthy, visible_rows_spec,
};

verus! {

/// Whether `a` and `b` hold the same nodes but for their special element data.
pub open spec fn same_shape(a: Seq<DomNode>, b: Seq<DomNode>) -> bool {
    &&& a.len() == b.len()
    &&& forall|i: int| 0 <= i < a.len() ==> same_node_shape(#[trigger] a[i], b[i])
}

/// Replacing a node's special data keeps its shape.
pub proof fn lemma_with_special_shape(n: DomNode, sd: SpecialElementData)
    ensures
        same_node_shape(with_special(n, sd), n),
{
}

proof fn lemma_shape_node(a: DomNode, b: DomNode)
    requires
        same_node_shape(a, b),
    ensures
        element_of(a) is Some <==> element_of(b) is Some,
        element_of(a) is Some ==> element_of(a)->0.attrs == element_of(b)->0.attrs
            && element_of(a)->0.name == element_of(b)->0.name,
        forall|name: Seq<char>| #[trigger] node_attr(a, name) == node_attr(b, name),
        forall|tag: Seq<char>| #[trigger] is_element_named(a, tag) == is_element_named(b, tag),
        a.data is Text <==> b.data is Text,
        a.data is Comment <==> b.data is Comment,
        a.data is Document <==> b.data is Document,
        a.data is Text ==> a.data == b.data,
{
    match (a.data, b.data) {
        (NodeData::Element(x), NodeData::Element(y)) => {
            assert forall|name: Seq<char>| #[trigger] node_attr(a, name) == node_attr(b, name) by {
                assert(x.attrs@ == y.attrs@);
            }
        },
        _ => {},
    }
}

proof fn lemma_shape_preorder(a: Seq<DomNode>, b: Seq<DomNode>, id: usize, fuel: nat)
    requires
        same_shape(a, b),
    ensures
        preorder(a, id, fuel) == preorder(b, id, fuel),
    decreases fuel, 0nat,
{
    if fuel > 0 && id < a.len() {
        assert(same_node_shape(a[id as int], b[id as int]));
        lemma_shape_preorder_list(a, b, a[id as int].children@, (fuel - 1) as nat);
    }
}

proof fn lemma_shape_preorder_list(a: Seq<DomNode>, b: Seq<DomNode>, ids: Seq<usize>, fuel: nat)
    requires
        same_shape(a, b),
    ensures
        preorder_list(a, ids, fuel) == preorder_list(b, ids, fuel),
    decreases fuel, ids.len(),
{
    if ids.len() > 0 {
        lemma_shape_preorder(a, b, ids[0], fuel);
        lemma_shape_preorder_list(a, b, ids.drop_first(), fuel);
    }
}

proof fn lemma_shape_text(a: Seq<DomNode>, b: Seq<DomNode>, id: usize, fuel: nat)
    requires
        same_shape(a, b),
    ensures
        text_content(a, id, fuel) == text_content(b, id, fuel),
    decreases fuel, 0nat,
{
    if fuel > 0 && id < a.len() {
        assert(same_node_shape(a[id as int], b[id as int]));
        lemma_shape_node(a[id as int], b[id as int]);
        lemma_shape_text_list(a, b, a[id as int].children@, (fuel - 1) as nat);
    }
}

proof fn lemma_shape_text_list(a: Seq<DomNode>, b: Seq<DomNode>, ids: Seq<usize>, fuel: nat)
    requires
        same_shape(a, b),
    ensures
        text_content_list(a, ids, fuel) == text_content_list(b, ids, fuel),
    decreases fuel, ids.len(),
{
    if ids.len() > 0 {
        lemma_shape_text(a, b, ids[0], fuel);
        lemma_shape_text_list(a, b, ids.drop_first(), fuel);
    }
}

proof fn lemma_shape_listed_in(a: Seq<DomNode>, b: Seq<DomNode>, select_id: usize, ids: Seq<usize>)
    requires
        same_shape(a, b),
    ensures
        listed_options_in(a, select_id, ids) == listed_options_in(b, select_id, ids),
    decreases ids.len(),
{
    if ids.len() > 0 {
        lemma_shape_listed_in(a, b, select_id, ids.drop_last());
        let id = ids.last();
        if id < a.len() {
            lemma_shape_node(a[id as int], b[id as int]);
        }
        assert(is_listed_option(a, select_id, id) == is_listed_option(b, select_id, id));
    }
}

proof fn lemma_shape_optgroup(a: Seq<DomNode>, b: Seq<DomNode>, select_id: usize, cur: Option<usize>, fuel: nat)
    requires
        same_shape(a, b),
    ensures
        optgroup_disabled(a, select_id, cur, fuel) == optgroup_disabled(b, select_id, cur, fuel),
    decreases fuel,
{
    match cur {
        Some(p) => if fuel > 0 && p != select_id && p < a.len() {
            lemma_shape_node(a[p as int], b[p as int]);
            lemma_shape_optgroup(a, b, select_id, a[p as int].parent, (fuel - 1) as nat);
        },
        None => {},
    }
}

/// Everything the derivation reads of the document but the special data is
/// the same in documents of the same shape.
pub proof fn lemma_shape_derivation(a: Seq<DomNode>, b: Seq<DomNode>, select_id: usize)
    requires
        same_shape(a, b),
        select_id < a.len(),
    ensures
        listed_options(a, select_id) == listed_options(b, select_id),
        node_select_mode(a[select_id as int]) == node_select_mode(b[select_id as int]),
        visible_rows_spec(a, select_id) == visible_rows_spec(b, select_id),
        forall|name: Seq<char>| #[trigger] node_attr(a[select_id as int], name) == node_attr(b[select_id as int], name),
        forall|id: usize| id < a.len() ==> #[trigger] option_value_spec(a, id) == option_value_spec(b, id),
        forall|id: usize| id < a.len() ==> #[trigger] option_label_spec(a, id) == option_label_spec(b, id),
        forall|id: usize|
            id < a.len() ==> #[trigger] option_disabled_spec(a, select_id, id) == option_disabled_spec(b, select_id, id),
{
    lemma_shape_preorder(a, b, select_id, a.len());
    lemma_shape_listed_in(a, b, select_id, preorder(a, select_id, a.len()));
    lemma_shape_node(a[select_id as int], b[select_id as int]);
    match (element_of(a[select_id as int]), element_of(b[select_id as int])) {
        (Some(x), Some(y)) => {
            assert(select_mode_spec(x) == select_mode_spec(y)) by {
                assert(forall|name: Seq<char>| elem_attr(x, name) == node_attr(a[select_id as int], name));
                assert(forall|name: Seq<char>| elem_attr(y, name) == node_attr(b[select_id as int], name));
                assert(elem_attr(x, "size"@) == elem_attr(y, "size"@));
                assert(elem_attr(x, "multiple"@) == elem_attr(y, "multiple"@));
            }
        },
        _ => {},
    }
    assert forall|id: usize| id < a.len() implies #[trigger] option_value_spec(a, id) == option_value_spec(b, id)
        && option_label_spec(a, id) == option_label_spec(b, id)
        && option_disabled_spec(a, select_id, id) == option_disabled_spec(b, select_id, id) by {
        lemma_shape_node(a[id as int], b[id as int]);
        lemma_shape_text(a, b, id, a.len());
        lemma_shape_optgroup(a, b, select_id, a[id as int].parent, a.len());
    }
    assert forall|id: usize| id < a.len() implies #[trigger] option_label_spec(a, id) == option_label_spec(b, id) by {
        assert(option_value_spec(a, id) == option_value_spec(b, id));
    }
    assert forall|id: usize| id < a.len() implies #[trigger] option_disabled_spec(a, select_id, id) == option_disabled_spec(b, select_id, id) by {
        assert(option_value_spec(a, id) == option_value_spec(b, id));
    }
}

/// When `p` and `q` agree on the elements of `s` from `from` on, they find
/// the same first position.
proof fn lemma_first_pos_agree(s: Seq<usize>, p: spec_fn(usize) -> bool, q: spec_fn(usize) -> bool, from: int)
    requires
        0 <= from,
        forall|k: int| 0 <= k < s.len() ==> p(#[trigger] s[k]) == q(s[k]),
    ensures
        first_pos_from(s, p, from) == first_pos_from(s, q, from),
    decreases s.len() - from,
{
    if from < s.len() {
        lemma_first_pos_agree(s, p, q, from + 1);
    }
}

/// A position whose element satisfies `p`, with none before it that does,
/// is the first one.
proof fn lemma_first_pos_is(s: Seq<usize>, p: spec_fn(usize) -> bool, at: int, from: int)
    requires
        0 <= from <= at < s.len(),
        p(s[at]),
        forall|j: int| 0 <= j < at ==> !p(#[trigger] s[j]),
    ensures
        first_pos_from(s, p, from) == Some(at),
    decreases at - from,
{
    if from < at {
        lemma_first_pos_is(s, p, at, from + 1);
    }
}

proof fn lemma_first_elem_in(s: Seq<usize>, p: spec_fn(usize) -> bool)
    ensures
        first_elem(s, p) matches Some(x) ==> exists|k: int| 0 <= k < s.len() && s[k] == x && p(x),
{
    lemma_first_pos_from(s, p, 0);
}

/// Whether two select states agree on everything they show.
pub open spec fn same_select_state(a: SelectData, b: SelectData) -> bool {
    &&& a.mode == b.mode
    &&& a.open == b.open
    &&& a.active_index == b.active_index
    &&& a.anchor_index == b.anchor_index
    &&& a.visible_rows == b.visible_rows
    &&& a.popup_rows == b.popup_rows
    &&& a.options@.len() == b.options@.len()
    &&& forall|k: int|
        0 <= k < a.options@.len() ==> {
            &&& (#[trigger] a.options@[k]).node_id == b.options@[k].node_id
            &&& a.options@[k].value@ == b.options@[k].value@
            &&& a.options@[k].label@ == b.options@[k].label@
            &&& a.options@[k].disabled == b.options@[k].disabled
        }
}

/// Syncing a select a second time changes nothing: every other node stays
/// as the first sync left it, and the select's state agrees with it.
pub proof fn lemma_sync_idempotent(nodes: Seq<DomNode>, select_id: usize, n1: Seq<DomNode>, n2: Seq<DomNode>)
    requires
        select_id < nodes.len(),
        is_element_named(nodes[select_id as int], "select"@),
        synced_into(nodes, select_id, n1),
        synced_into(n1, select_id, n2),
    ensures
        n2.len() == n1.len(),
        forall|i: int| 0 <= i < n1.len() && i != select_id ==> #[trigger] n2[i] == n1[i],
        same_node_shape(n2[select_id as int], n1[select_id as int]),
        select_data_of(n1[select_id as int]) matches Some(sd1) && select_data_of(n2[select_id as int]) matches Some(
            sd2,
        ) && same_select_state(sd1, sd2),
{
    let s = select_id;
    let opts = listed_options(nodes, s);
    lemma_listed_options_in(nodes, s, preorder(nodes, s, nodes.len()));
    // The first sync only changes special data.
    assert(same_shape(n1, nodes)) by {
        assert forall|i: int| 0 <= i < n1.len() implies same_node_shape(#[trigger] n1[i], nodes[i]) by {
            if i != s {
                lemma_with_special_shape(nodes[i], SpecialElementData::Option(synced_option_data(nodes, s, i as usize)));
            }
        }
    }
    lemma_shape_derivation(n1, nodes, s);
    assert(listed_options(n1, s) == opts);
    let c = dropdown_choice(nodes, s);
    // What the first sync wrote on each option.
    assert forall|k: int| 0 <= k < opts.len() implies {
        &&& n1[opts[k] as int] == with_special(
            nodes[opts[k] as int],
            SpecialElementData::Option(synced_option_data(nodes, s, opts[k])),
        )
        &&& existing_option_data(#[trigger] n1[opts[k] as int]) == synced_option_data(nodes, s, opts[k])
        &&& node_attr(n1[opts[k] as int], "selected"@) == node_attr(nodes[opts[k] as int], "selected"@)
        &&& attr_selected(n1[opts[k] as int]) == match node_attr(nodes[opts[k] as int], "selected"@) {
            Some(v) => truthy(v),
            None => synced_flag(nodes, s, opts[k]),
        }
        &&& attr_default_selected(n1[opts[k] as int]) == attr_default_selected(nodes[opts[k] as int])
    } by {
        let o = opts[k];
        assert(is_listed_option(nodes, s, o));
        assert(opts.contains(o));
        assert(n1[o as int] == with_special(nodes[o as int], SpecialElementData::Option(synced_option_data(nodes, s, o))));
        lemma_shape_node(n1[o as int], nodes[o as int]);
    }
    // The dropdown's choice is the same the second time.
    if node_select_mode(nodes[s as int]) == SelectMode::Dropdown {
        match node_attr(nodes[s as int], "value"@) {
            Some(v) => {
                lemma_first_pos_agree(opts, has_value(n1, v), has_value(nodes, v), 0);
                lemma_first_pos_agree(opts, is_enabled(n1, s), is_enabled(nodes, s), 0);
            },
            None => {
                lemma_first_pos_agree(opts, is_enabled(n1, s), is_enabled(nodes, s), 0);
                lemma_first_pos_from(opts, marked_selected(nodes), 0);
                lemma_first_elem_in(opts, marked_selected(n1));
                match first_pos(opts, marked_selected(nodes)) {
                    Some(p) => {
                        assert forall|j: int| 0 <= j < p implies !marked_selected(n1)(#[trigger] opts[j]) by {
                            if opts[j] == opts[p] {
                                assert(marked_selected(nodes)(opts[j]));
                            }
                        }
                        lemma_first_pos_is(opts, marked_selected(n1), p, 0);
                    },
                    None => {},
                }
            },
        }
        assert(dropdown_choice(n1, s) == c);
    }
    // Each option ends up with the same flag and option data.
    assert forall|k: int| 0 <= k < opts.len() implies #[trigger] synced_flag(n1, s, opts[k]) == synced_flag(nodes, s, opts[k])
        && synced_option_data(n1, s, opts[k]) == synced_option_data(nodes, s, opts[k]) by {
        assert(existing_option_data(n1[opts[k] as int]) == synced_option_data(nodes, s, opts[k]));
    }
    assert forall|i: int| 0 <= i < n1.len() && i != s implies #[trigger] n2[i] == n1[i] by {
        if opts.contains(i as usize) {
            let k = choose|k: int| 0 <= k < opts.len() && opts[k] == i as usize;
            assert(synced_option_data(n1, s, opts[k]) == synced_option_data(nodes, s, opts[k]));
            assert(existing_option_data(n1[opts[k] as int]) == synced_option_data(nodes, s, opts[k]));
        }
    }
    // The select's state.
    lemma_first_pos_agree(opts, ends_selected(n1, s), ends_selected(nodes, s), 0);
    assert forall|k: int| 0 <= k < opts.len() implies ends_selected(n1, s)(#[trigger] opts[k]) == ends_selected(nodes, s)(opts[k]) by {
        assert(synced_flag(n1, s, opts[k]) == synced_flag(nodes, s, opts[k]));
    }
    lemma_first_pos_agree(opts, ends_selected(n1, s), ends_selected(nodes, s), 0);
    let sd1 = select_data_of(n1[s as int])->0;
    let sd2 = select_data_of(n2[s as int])->0;
    assert(synced_active(n1, s, Some(sd1)) == sd1.active_index);
    assert forall|k: int| 0 <= k < sd1.options@.len() implies {
        &&& (#[trigger] sd1.options@[k]).node_id == sd2.options@[k].node_id
        &&& sd1.options@[k].value@ == sd2.options@[k].value@
        &&& sd1.options@[k].label@ == sd2.options@[k].label@
        &&& sd1.options@[k].disabled == sd2.options@[k].disabled
    } by {
        assert(opts[k] < nodes.len());
        assert(option_value_spec(n1, opts[k]) == option_value_spec(nodes, opts[k]));
    }
}

} // verus!
