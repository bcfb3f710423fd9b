//! Properties that hold of `<select>` controls across operations.

use vstd::prelude::*;

use crate::dom::{
    DomNode, SelectData, SelectMode, SelectOption, node_attr, node_selected, option_data_of,
    select_data_of, with_option_selected, with_select_state,
};
use crate::select::{
    MoveOutcome, dropdown_choice, first_elem, first_pos, first_pos_from, has_value,
    insert_sorted, is_enabled, label_matches, lemma_first_pos_from, listed_options,
    marked_selected, move_walk, node_select_mode, opened_nodes, opens, option_value_spec,
    prefix_scan, selected_positions, lemma_selected_positions_bound, synced_flag, toggled, with_open, without_value,
    option_disabled_spec, form_positions, applied_changes, applied_indices, chosen_nodes, options_of,
    activation_indices, selected_indices, listed_options_in, is_listed_option,
    synced_into,
};
use crate::dom::preorder;
use crate::tree::{forest, lemma_forest_preorder_nodup};

verus! {

/// The element found by `first_elem` is an element of the sequence that
/// satisfies the predicate; and it is found whenever some element does.
proof fn lemma_first_elem(s: Seq<usize>, p: spec_fn(usize) -> bool)
    ensures
        first_elem(s, p) matches Some(x) ==> s.contains(x) && p(x),
        (exists|k: int| 0 <= k < s.len() && p(#[trigger] s[k])) ==> first_elem(s, p) is Some,
{
    lemma_first_pos_from(s, p, 0);
    match first_pos(s, p) {
        Some(k) => {
            assert(s[k] == first_elem(s, p)->0);
        },
        None => {},
    }
}

/// A dropdown ends up with at most one selected option.
pub proof fn lemma_dropdown_selects_at_most_one(nodes: Seq<DomNode>, select_id: usize, a: usize, b: usize)
    requires
        node_select_mode(nodes[select_id as int]) == SelectMode::Dropdown,
        a != b,
    ensures
        !(synced_flag(nodes, select_id, a) && synced_flag(nodes, select_id, b)),
{
}

/// A dropdown with an enabled option ends up with one of its options selected.
pub proof fn lemma_dropdown_selects_some_option(nodes: Seq<DomNode>, select_id: usize, k: int)
    requires
        select_id < nodes.len(),
        0 <= k < listed_options(nodes, select_id).len(),
        !option_disabled_spec(nodes, select_id, listed_options(nodes, select_id)[k]),
    ensures
        dropdown_choice(nodes, select_id) matches Some(c) && listed_options(nodes, select_id).contains(c),
{
    let opts = listed_options(nodes, select_id);
    lemma_first_elem(opts, is_enabled(nodes, select_id));
    assert(is_enabled(nodes, select_id)(opts[k]));
    lemma_first_elem(opts, marked_selected(nodes));
    match node_attr(nodes[select_id as int], "value"@) {
        Some(v) => lemma_first_elem(opts, has_value(nodes, v)),
        None => {},
    }
}

/// When a select's `value` attribute names the value of one of its options,
/// the dropdown selects the first option with that value.
pub proof fn lemma_controlled_value_wins(nodes: Seq<DomNode>, select_id: usize, v: Seq<char>, k: int)
    requires
        select_id < nodes.len(),
        node_attr(nodes[select_id as int], "value"@) == Some(v),
        0 <= k < listed_options(nodes, select_id).len(),
        option_value_spec(nodes, listed_options(nodes, select_id)[k]) == v,
    ensures
        dropdown_choice(nodes, select_id) matches Some(c) && option_value_spec(nodes, c) == v
            && listed_options(nodes, select_id).contains(c),
{
    let opts = listed_options(nodes, select_id);
    assert(has_value(nodes, v)(opts[k]));
    lemma_first_elem(opts, has_value(nodes, v));
}

/// Making option `index` active is what a later read of the active option gives back.
pub proof fn lemma_active_reads_back(node: DomNode, open: bool, index: usize, anchor: Option<usize>)
    requires
        select_data_of(node) is Some,
    ensures
        select_data_of(with_select_state(node, open, Some(index), anchor)) matches Some(sd)
            && sd.active_index == Some(index) && sd.open == open
            && sd.options == select_data_of(node)->0.options,
{
}

/// Opening a closed dropdown leaves it open; closing it again clears the open
/// flag and keeps its options and active option.
pub proof fn lemma_open_then_close(nodes: Seq<DomNode>, select_id: usize)
    requires
        select_id < nodes.len(),
        opens(nodes, select_id),
    ensures
        select_data_of(opened_nodes(nodes, select_id)[select_id as int]) matches Some(sd) && sd.open && {
            let closed = with_open(opened_nodes(nodes, select_id)[select_id as int], false);
            select_data_of(closed) matches Some(sd2) && !sd2.open && sd2.options == sd.options
                && sd2.active_index == sd.active_index && sd2.mode == SelectMode::Dropdown
        },
{
}

/// A move that lands stops on an enabled option.
pub proof fn lemma_move_lands_on_enabled(options: Seq<SelectOption>, current: int, delta: int, steps: nat)
    requires
        options.len() > 0,
    ensures
        move_walk(options, current, delta, steps) matches MoveOutcome::Lands(c) ==> c < options.len()
            && !options[c as int].disabled,
    decreases steps,
{
    if steps > 0 {
        let next = current + delta;
        if !(next < isize::MIN || next > isize::MAX) {
            let c = if next < 0 {
                0
            } else if next > options.len() - 1 {
                options.len() - 1
            } else {
                next
            };
            lemma_move_lands_on_enabled(options, c, delta, (steps - 1) as nat);
        }
    }
}

/// A type-ahead search only ever finds an enabled option whose label starts
/// with the (lowercased) prefix.
pub proof fn lemma_prefix_search_matches(options: Seq<SelectOption>, start: int, lower_prefix: Seq<char>, offset: int)
    requires
        0 <= start,
        0 <= offset,
        options.len() <= usize::MAX,
    ensures
        prefix_scan(options, start, lower_prefix, offset) matches Some(i) ==> i < options.len()
            && label_matches(options[i as int], lower_prefix),
    decreases options.len() - offset,
{
    if offset < options.len() {
        lemma_prefix_search_matches(options, start, lower_prefix, offset + 1);
    }
}

/// Whether `s` is strictly increasing.
pub open spec fn strictly_increasing(s: Seq<usize>) -> bool {
    forall|i: int, j: int| 0 <= i < j < s.len() ==> s[i] < s[j]
}

/// The selected positions of a select are strictly increasing and are
/// exactly the positions whose option nodes are marked selected.
pub proof fn lemma_selected_positions(nodes: Seq<DomNode>, sd: SelectData, upto: int)
    requires
        0 <= upto <= sd.options@.len(),
        sd.options@.len() <= usize::MAX,
    ensures
        strictly_increasing(selected_positions(nodes, sd, upto)),
        forall|k: usize|
            selected_positions(nodes, sd, upto).contains(k) <==> (k < upto && node_selected(
                nodes,
                sd.options@[k as int].node_id as int,
            )),
    decreases upto,
{
    if upto > 0 {
        lemma_selected_positions(nodes, sd, upto - 1);
        lemma_selected_positions_bound(nodes, sd, upto - 1);
        let rest = selected_positions(nodes, sd, upto - 1);
        let all = selected_positions(nodes, sd, upto);
        assert forall|i: int, j: int| 0 <= i < j < all.len() implies all[i] < all[j] by {
            if j < rest.len() {
                assert(all[i] == rest[i] && all[j] == rest[j]);
            } else {
                assert(all[i] == rest[i]);
            }
        }
        assert forall|k: usize| all.contains(k) <==> (k < upto && node_selected(
            nodes,
            sd.options@[k as int].node_id as int,
        )) by {
            if all.contains(k) && k as int != upto - 1 {
                let w = choose|w: int| 0 <= w < all.len() && all[w] == k;
                assert(rest[w] == k);
            }
            if rest.contains(k) {
                let w = choose|w: int| 0 <= w < rest.len() && rest[w] == k;
                assert(all[w] == k);
            }
            if k as int == upto - 1 && node_selected(nodes, sd.options@[k as int].node_id as int) {
                assert(all == rest.push(k));
                assert(all[all.len() - 1] == k);
            }
        }
    }
}

/// Inserting into a strictly increasing sequence an element it lacks keeps it
/// strictly increasing and adds exactly that element.
pub proof fn lemma_insert_sorted(s: Seq<usize>, x: usize)
    requires
        strictly_increasing(s),
        !s.contains(x),
    ensures
        strictly_increasing(insert_sorted(s, x)),
        insert_sorted(s, x).len() == s.len() + 1,
        forall|y: usize| insert_sorted(s, x).contains(y) <==> (y == x || s.contains(y)),
    decreases s.len(),
{
    let r = insert_sorted(s, x);
    if s.len() == 0 {
        assert(r[0] == x);
    } else if x <= s[0] {
        assert(x != s[0]);
        assert forall|y: usize| r.contains(y) <==> (y == x || s.contains(y)) by {
            if r.contains(y) {
                let w = choose|w: int| 0 <= w < r.len() && r[w] == y;
                if w > 0 {
                    assert(s[w - 1] == y);
                }
            }
            if s.contains(y) {
                let w = choose|w: int| 0 <= w < s.len() && s[w] == y;
                assert(r[w + 1] == y);
            }
            if y == x {
                assert(r[0] == x);
            }
        }
    } else {
        let t = s.drop_first();
        assert forall|i: int, j: int| 0 <= i < j < t.len() implies t[i] < t[j] by {
            assert(t[i] == s[i + 1] && t[j] == s[j + 1]);
        }
        assert(!t.contains(x)) by {
            if t.contains(x) {
                let w = choose|w: int| 0 <= w < t.len() && t[w] == x;
                assert(s[w + 1] == x);
            }
        }
        lemma_insert_sorted(t, x);
        let rt = insert_sorted(t, x);
        assert(r == seq![s[0]] + rt);
        assert forall|y: usize| r.contains(y) <==> (y == x || s.contains(y)) by {
            if r.contains(y) {
                let w = choose|w: int| 0 <= w < r.len() && r[w] == y;
                if w > 0 {
                    assert(rt[w - 1] == y);
                    assert(0 <= w - 1 < rt.len());
                    assert(rt.contains(y));
                    if t.contains(y) {
                        let v = choose|v: int| 0 <= v < t.len() && t[v] == y;
                        assert(s[v + 1] == y);
                    }
                } else {
                    assert(s[0] == y);
                }
            }
            if s.contains(y) {
                let w = choose|w: int| 0 <= w < s.len() && s[w] == y;
                if w == 0 {
                    assert(r[0] == y);
                } else {
                    assert(t[w - 1] == y);
                    assert(t.contains(y));
                    assert(rt.contains(y));
                    let v = choose|v: int| 0 <= v < rt.len() && rt[v] == y;
                    assert(r[v + 1] == y);
                }
            }
            if y == x {
                assert(rt.contains(x));
                let v = choose|v: int| 0 <= v < rt.len() && rt[v] == x;
                assert(r[v + 1] == x);
            }
        }
        assert forall|i: int, j: int| 0 <= i < j < r.len() implies r[i] < r[j] by {
            if i == 0 {
                assert(rt.contains(r[j]));
                assert(r[j] == x || s.contains(r[j]));
                if s.contains(r[j]) {
                    let w = choose|w: int| 0 <= w < s.len() && s[w] == r[j];
                    if w == 0 {
                        assert(rt[j - 1] == s[0]);
                        assert(t.contains(s[0]) || s[0] == x);
                        if t.contains(s[0]) {
                            let v = choose|v: int| 0 <= v < t.len() && t[v] == s[0];
                            assert(s[v + 1] == s[0]);
                        }
                    }
                }
            } else {
                assert(r[i] == rt[i - 1] && r[j] == rt[j - 1]);
            }
        }
    }
}

/// Removing an element from a strictly increasing sequence keeps it strictly
/// increasing and drops exactly that element.
pub proof fn lemma_without_value(s: Seq<usize>, x: usize)
    requires
        strictly_increasing(s),
    ensures
        strictly_increasing(without_value(s, x)),
        forall|y: usize| without_value(s, x).contains(y) <==> (y != x && s.contains(y)),
        forall|i: int| 0 <= i < without_value(s, x).len() ==> s.contains(#[trigger] without_value(s, x)[i]),
    decreases s.len(),
{
    if s.len() > 0 {
        let t = s.drop_last();
        assert forall|i: int, j: int| 0 <= i < j < t.len() implies t[i] < t[j] by {
            assert(t[i] == s[i] && t[j] == s[j]);
        }
        lemma_without_value(t, x);
        let rest = without_value(t, x);
        let all = without_value(s, x);
        assert forall|i: int| 0 <= i < all.len() implies s.contains(#[trigger] all[i]) by {
            if i < rest.len() {
                assert(all[i] == rest[i]);
                assert(t.contains(rest[i]));
                let w = choose|w: int| 0 <= w < t.len() && t[w] == rest[i];
                assert(s[w] == rest[i]);
            } else {
                assert(all[i] == s.last());
            }
        }
        assert forall|y: usize| all.contains(y) <==> (y != x && s.contains(y)) by {
            if all.contains(y) {
                let w = choose|w: int| 0 <= w < all.len() && all[w] == y;
                if w < rest.len() {
                    assert(rest[w] == y);
                }
            }
            if y != x && s.contains(y) {
                let w = choose|w: int| 0 <= w < s.len() && s[w] == y;
                if w < t.len() {
                    assert(t[w] == y);
                    assert(t.contains(y));
                    assert(rest.contains(y));
                    let v = choose|v: int| 0 <= v < rest.len() && rest[v] == y;
                    assert(all[v] == y);
                } else {
                    assert(all[all.len() - 1] == y);
                }
            }
        }
        assert forall|i: int, j: int| 0 <= i < j < all.len() implies all[i] < all[j] by {
            if j < rest.len() {
                assert(all[i] == rest[i] && all[j] == rest[j]);
            } else {
                assert(all[j] == s.last());
                assert(all[i] == rest[i]);
                assert(t.contains(rest[i]));
                let w = choose|w: int| 0 <= w < t.len() && t[w] == rest[i];
                assert(s[w] == rest[i]);
            }
        }
    }
}

/// Toggling a position in a list box's strictly increasing selected positions
/// gives a strictly increasing sequence that holds the position exactly when
/// it did not before.
pub proof fn lemma_toggled(s: Seq<usize>, x: usize)
    requires
        strictly_increasing(s),
    ensures
        strictly_increasing(toggled(s, x)),
        forall|y: usize| toggled(s, x).contains(y) <==> (if y == x { !s.contains(x) } else { s.contains(y) }),
{
    if s.contains(x) {
        lemma_without_value(s, x);
    } else {
        lemma_insert_sorted(s, x);
    }
}

/// The last position below `upto` whose option sits on node `x`.
spec fn index_below(options: Seq<SelectOption>, x: usize, upto: int) -> Option<int>
    decreases upto,
{
    if upto <= 0 {
        None
    } else if options[upto - 1].node_id == x {
        Some(upto - 1)
    } else {
        index_below(options, x, upto - 1)
    }
}

/// What node `x` holds after choosing `indices` among `options[..upto]`,
/// when the options sit on distinct nodes.
spec fn chosen_node(nodes: Seq<DomNode>, options: Seq<SelectOption>, indices: Seq<usize>, upto: int, x: usize) -> DomNode {
    match index_below(options, x, upto) {
        Some(j) => if !options[j].disabled && option_data_of(nodes[x as int]) is Some {
            with_option_selected(nodes[x as int], indices.contains(j as usize))
        } else {
            nodes[x as int]
        },
        None => nodes[x as int],
    }
}

proof fn lemma_index_below_none(options: Seq<SelectOption>, u: int, upto: int)
    requires
        0 <= u < options.len(),
        0 <= upto <= u,
        option_ids_distinct(options),
    ensures
        index_below(options, options[u].node_id, upto) is None,
    decreases upto,
{
    if upto > 0 {
        assert(options[upto - 1].node_id != options[u].node_id);
        lemma_index_below_none(options, u, upto - 1);
    }
}

/// Whether no two options sit on the same node.
pub open spec fn option_ids_distinct(options: Seq<SelectOption>) -> bool {
    forall|i: int, j: int| 0 <= i < j < options.len() ==> options[i].node_id != options[j].node_id
}

proof fn lemma_applied_shape(nodes: Seq<DomNode>, options: Seq<SelectOption>, indices: Seq<usize>, upto: int)
    requires
        0 <= upto <= options.len(),
        option_ids_distinct(options),
        nodes.len() <= usize::MAX,
        options.len() <= usize::MAX,
    ensures
        applied_indices(nodes, options, indices, upto).len() == nodes.len(),
        forall|x: int|
            0 <= x < nodes.len() ==> #[trigger] applied_indices(nodes, options, indices, upto)[x] == chosen_node(
                nodes,
                options,
                indices,
                upto,
                x as usize,
            ),
    decreases upto,
{
    if upto > 0 {
        let u = upto - 1;
        lemma_applied_shape(nodes, options, indices, u);
        let prev = applied_indices(nodes, options, indices, u);
        let o = options[u];
        lemma_index_below_none(options, u, u);
        assert forall|x: int| 0 <= x < nodes.len() implies #[trigger] applied_indices(nodes, options, indices, upto)[x]
            == chosen_node(nodes, options, indices, upto, x as usize) by {
            let cur = applied_indices(nodes, options, indices, upto);
            assert(prev[x] == chosen_node(nodes, options, indices, u, x as usize));
            if x != o.node_id {
                assert(index_below(options, x as usize, upto) == index_below(options, x as usize, u));
                assert(cur[x] == prev[x]);
            } else {
                assert(index_below(options, x as usize, upto) == Some(u));
                assert(prev[x] == nodes[x]);
                match option_data_of(nodes[x]) {
                    Some(d) => {
                        if !o.disabled && d.selected == indices.contains(u as usize) {
                            assert(with_option_selected(nodes[x], d.selected) == nodes[x]);
                        }
                    },
                    None => {},
                }
            }
        }
    }
}

proof fn lemma_second_pass(
    nodes: Seq<DomNode>,
    after: Seq<DomNode>,
    options: Seq<SelectOption>,
    indices: Seq<usize>,
    upto: int,
)
    requires
        0 <= upto <= options.len(),
        option_ids_distinct(options),
        after.len() == nodes.len(),
        forall|u: int|
            0 <= u < options.len() && options[u].node_id < nodes.len() ==> {
                let x = options[u].node_id;
                match option_data_of(after[x as int]) {
                    Some(d) => !options[u].disabled ==> d.selected == indices.contains(u as usize),
                    None => true,
                }
            },
    ensures
        applied_indices(after, options, indices, upto) == after,
        applied_changes(after, options, indices, upto).is_empty(),
    decreases upto,
{
    if upto > 0 {
        lemma_second_pass(nodes, after, options, indices, upto - 1);
        assert(applied_changes(after, options, indices, upto) =~= Set::<usize>::empty());
    } else {
        assert(applied_changes(after, options, indices, upto) =~= Set::<usize>::empty());
    }
}

/// Choosing the same positions of a select twice: the second time nothing
/// changes (when the select's options sit on distinct nodes).
pub proof fn lemma_choose_twice_changes_nothing(nodes: Seq<DomNode>, select_id: usize, indices: Seq<usize>)
    requires
        select_id < nodes.len(),
        nodes.len() <= usize::MAX,
        options_of(nodes, select_id).len() <= usize::MAX,
        option_ids_distinct(options_of(nodes, select_id)),
    ensures
        options_of(chosen_nodes(nodes, select_id, indices), select_id) == options_of(nodes, select_id),
        applied_changes(
            chosen_nodes(nodes, select_id, indices),
            options_of(nodes, select_id),
            indices,
            options_of(nodes, select_id).len() as int,
        ).is_empty(),
{
    let opts = options_of(nodes, select_id);
    let m = opts.len() as int;
    let mid = applied_indices(nodes, opts, indices, m);
    let after = chosen_nodes(nodes, select_id, indices);
    lemma_applied_shape(nodes, opts, indices, m);
    match select_data_of(nodes[select_id as int]) {
        Some(sd) => {
            assert(option_data_of(nodes[select_id as int]) is None);
            assert(mid[select_id as int] == nodes[select_id as int]);
            assert forall|u: int|
                0 <= u < opts.len() && opts[u].node_id < nodes.len() implies {
                    let x = opts[u].node_id;
                    match option_data_of(after[x as int]) {
                        Some(d) => !opts[u].disabled ==> d.selected == indices.contains(u as usize),
                        None => true,
                    }
                } by {
                let x = opts[u].node_id;
                assert(index_below(opts, x, m) == Some(u)) by {
                    lemma_index_below_last(opts, u, m);
                }
                if x != select_id {
                    assert(after[x as int] == mid[x as int]);
                }
            }
            lemma_second_pass(nodes, after, opts, indices, m);
        },
        None => {
            assert(applied_changes(after, opts, indices, m) =~= Set::<usize>::empty());
        },
    }
}

proof fn lemma_index_below_last(options: Seq<SelectOption>, u: int, upto: int)
    requires
        0 <= u < upto <= options.len(),
        option_ids_distinct(options),
    ensures
        index_below(options, options[u].node_id, upto) == Some(u),
    decreases upto,
{
    if upto - 1 != u {
        assert(options[upto - 1].node_id != options[u].node_id);
        lemma_index_below_last(options, u, upto - 1);
    }
}

/// Choosing positions only ever changes the nodes of enabled options.
pub proof fn lemma_choose_changes_only_enabled(nodes: Seq<DomNode>, options: Seq<SelectOption>, indices: Seq<usize>, upto: int)
    requires
        0 <= upto <= options.len(),
    ensures
        forall|x: usize|
            #[trigger] applied_changes(nodes, options, indices, upto).contains(x) ==> exists|k: int|
                0 <= k < upto && options[k].node_id == x && !options[k].disabled,
    decreases upto,
{
    if upto > 0 {
        lemma_choose_changes_only_enabled(nodes, options, indices, upto - 1);
        assert forall|x: usize| #[trigger] applied_changes(nodes, options, indices, upto).contains(x) implies exists|k: int|
            0 <= k < upto && options[k].node_id == x && !options[k].disabled by {
            if !applied_changes(nodes, options, indices, upto - 1).contains(x) {
                assert(options[upto - 1].node_id == x && !options[upto - 1].disabled);
            } else {
                let k = choose|k: int| 0 <= k < upto - 1 && options[k].node_id == x && !options[k].disabled;
                assert(0 <= k < upto && options[k].node_id == x && !options[k].disabled);
            }
        }
    }
}

/// What a select submits comes only from its enabled options whose nodes are
/// marked selected, in option order.
pub proof fn lemma_form_values_selected_enabled(nodes: Seq<DomNode>, sd: SelectData, upto: int)
    requires
        0 <= upto <= sd.options@.len(),
        sd.options@.len() <= usize::MAX,
    ensures
        strictly_increasing(form_positions(nodes, sd, upto)),
        forall|j: int|
            0 <= j < form_positions(nodes, sd, upto).len() ==> {
                let k = #[trigger] form_positions(nodes, sd, upto)[j];
                &&& k < upto
                &&& !sd.options@[k as int].disabled
                &&& node_selected(nodes, sd.options@[k as int].node_id as int)
            },
    decreases upto,
{
    if upto > 0 {
        lemma_form_values_selected_enabled(nodes, sd, upto - 1);
        let rest = form_positions(nodes, sd, upto - 1);
        let all = form_positions(nodes, sd, upto);
        assert forall|j: int| 0 <= j < all.len() implies {
            let k = #[trigger] all[j];
            &&& k < upto
            &&& !sd.options@[k as int].disabled
            &&& node_selected(nodes, sd.options@[k as int].node_id as int)
        } by {
            if j < rest.len() {
                assert(all[j] == rest[j]);
            }
        }
        assert forall|i: int, j: int| 0 <= i < j < all.len() implies all[i] < all[j] by {
            if j < rest.len() {
                assert(all[i] == rest[i] && all[j] == rest[j]);
            } else {
                assert(all[i] == rest[i]);
            }
        }
    }
}

proof fn lemma_index_below_some(options: Seq<SelectOption>, x: usize, upto: int)
    requires
        upto <= options.len(),
    ensures
        index_below(options, x, upto) matches Some(j) ==> 0 <= j < upto && options[j].node_id == x,
    decreases upto,
{
    if upto > 0 && options[upto - 1].node_id != x {
        lemma_index_below_some(options, x, upto - 1);
    }
}

/// Whether activating option `index` of select `select_id` flips node `x`:
/// `x` is that option's node, the option is enabled, and the node is an option.
pub open spec fn activation_flips(nodes: Seq<DomNode>, select_id: usize, index: usize, x: int) -> bool {
    let opts = options_of(nodes, select_id);
    &&& index < opts.len()
    &&& !opts[index as int].disabled
    &&& x == opts[index as int].node_id
    &&& 0 <= x < nodes.len()
    &&& option_data_of(nodes[x]) is Some
}

/// Activating option `index` of a list box flips the selected flag of that
/// option's node (when it is enabled and an option) and keeps every other
/// node's flag, which nodes are options, the options and the list-box mode.
pub proof fn lemma_listbox_activation_flips(nodes: Seq<DomNode>, select_id: usize, index: usize)
    requires
        select_id < nodes.len(),
        nodes.len() <= usize::MAX,
        options_of(nodes, select_id).len() <= usize::MAX,
        option_ids_distinct(options_of(nodes, select_id)),
        select_data_of(nodes[select_id as int]) matches Some(sd) && sd.mode == SelectMode::Listbox,
    ensures
        ({
            let once = chosen_nodes(nodes, select_id, activation_indices(nodes, select_id, index));
            &&& once.len() == nodes.len()
            &&& options_of(once, select_id) == options_of(nodes, select_id)
            &&& select_data_of(once[select_id as int]) matches Some(sd) && sd.mode == SelectMode::Listbox
            &&& forall|x: int|
                0 <= x < nodes.len() ==> (option_data_of(#[trigger] once[x]) is Some <==> option_data_of(nodes[x]) is Some)
            &&& forall|x: int|
                #[trigger] node_selected(once, x) == if activation_flips(nodes, select_id, index, x) {
                    !node_selected(nodes, x)
                } else {
                    node_selected(nodes, x)
                }
        }),
{
    let opts = options_of(nodes, select_id);
    let m = opts.len() as int;
    let sd = select_data_of(nodes[select_id as int])->0;
    let sel = selected_indices(nodes, select_id);
    let indices = activation_indices(nodes, select_id, index);
    assert(indices == toggled(sel, index));
    let mid = applied_indices(nodes, opts, indices, m);
    let once = chosen_nodes(nodes, select_id, indices);
    lemma_selected_positions(nodes, sd, m);
    lemma_toggled(sel, index);
    lemma_applied_shape(nodes, opts, indices, m);
    lemma_choose_twice_changes_nothing(nodes, select_id, indices);
    assert(option_data_of(nodes[select_id as int]) is None);
    assert(mid[select_id as int] == nodes[select_id as int]) by {
        lemma_index_below_some(opts, select_id, m);
    }
    assert forall|x: int|
        0 <= x < nodes.len() implies (option_data_of(#[trigger] once[x]) is Some <==> option_data_of(nodes[x]) is Some)
        && (node_selected(once, x) == if activation_flips(nodes, select_id, index, x) {
            !node_selected(nodes, x)
        } else {
            node_selected(nodes, x)
        }) by {
        if x != select_id {
            assert(once[x] == mid[x]);
            lemma_index_below_some(opts, x as usize, m);
            match index_below(opts, x as usize, m) {
                Some(j) => {
                    if index < m && x == opts[index as int].node_id {
                        lemma_index_below_last(opts, index as int, m);
                    }
                    if j != index {
                        assert(sel.contains(j as usize) == node_selected(nodes, x));
                    }
                },
                None => {
                    if index < m && x == opts[index as int].node_id {
                        lemma_index_below_last(opts, index as int, m);
                    }
                },
            }
        }
    }
}

/// Activating the same option of a list box twice restores every node's
/// selected flag (when the select's options sit on distinct nodes).
pub proof fn lemma_listbox_toggle_twice_restores(nodes: Seq<DomNode>, select_id: usize, index: usize)
    requires
        select_id < nodes.len(),
        nodes.len() <= usize::MAX,
        options_of(nodes, select_id).len() <= usize::MAX,
        option_ids_distinct(options_of(nodes, select_id)),
        select_data_of(nodes[select_id as int]) matches Some(sd) && sd.mode == SelectMode::Listbox,
    ensures
        ({
            let once = chosen_nodes(nodes, select_id, activation_indices(nodes, select_id, index));
            let twice = chosen_nodes(once, select_id, activation_indices(once, select_id, index));
            &&& options_of(twice, select_id) == options_of(nodes, select_id)
            &&& forall|x: int| #[trigger] node_selected(twice, x) == node_selected(nodes, x)
        }),
{
    let once = chosen_nodes(nodes, select_id, activation_indices(nodes, select_id, index));
    lemma_listbox_activation_flips(nodes, select_id, index);
    lemma_listbox_activation_flips(once, select_id, index);
    assert forall|x: int| #[trigger] node_selected(
        chosen_nodes(once, select_id, activation_indices(once, select_id, index)),
        x,
    ) == node_selected(nodes, x) by {
        assert(activation_flips(once, select_id, index, x) == activation_flips(nodes, select_id, index, x)) by {
            if 0 <= x < nodes.len() {
                assert(option_data_of(once[x]) is Some <==> option_data_of(nodes[x]) is Some);
            }
        }
    }
}

proof fn lemma_listed_options_in_nodup(nodes: Seq<DomNode>, select_id: usize, ids: Seq<usize>)
    requires
        ids.no_duplicates(),
    ensures
        listed_options_in(nodes, select_id, ids).no_duplicates(),
        forall|x: usize| #[trigger] listed_options_in(nodes, select_id, ids).contains(x) ==> ids.contains(x),
    decreases ids.len(),
{
    if ids.len() > 0 {
        let init = ids.drop_last();
        let rest = listed_options_in(nodes, select_id, init);
        let all = listed_options_in(nodes, select_id, ids);
        assert forall|i: int, j: int| 0 <= i < j < init.len() implies init[i] != init[j] by {
            assert(init[i] == ids[i] && init[j] == ids[j]);
        }
        lemma_listed_options_in_nodup(nodes, select_id, init);
        assert(!init.contains(ids.last())) by {
            if init.contains(ids.last()) {
                let w = choose|w: int| 0 <= w < init.len() && init[w] == ids.last();
                assert(ids[w] == ids[ids.len() - 1]);
            }
        }
        assert forall|x: usize| #[trigger] all.contains(x) implies ids.contains(x) by {
            let w = choose|w: int| 0 <= w < all.len() && all[w] == x;
            if is_listed_option(nodes, select_id, ids.last()) && w == rest.len() {
                assert(ids[ids.len() - 1] == x);
            } else {
                assert(rest[w] == x);
                assert(rest.contains(x));
                let v = choose|v: int| 0 <= v < init.len() && init[v] == x;
                assert(ids[v] == x);
            }
        }
        if is_listed_option(nodes, select_id, ids.last()) {
            assert forall|i: int, j: int| 0 <= i < j < all.len() implies all[i] != all[j] by {
                if j == rest.len() {
                    assert(all[i] == rest[i]);
                    assert(rest.contains(rest[i]));
                    assert(init.contains(rest[i]));
                } else {
                    assert(all[i] == rest[i] && all[j] == rest[j]);
                }
            }
        }
    }
}

/// A select's options, as listed from the tree, are distinct nodes.
pub proof fn lemma_listed_options_distinct(nodes: Seq<DomNode>, select_id: usize)
    requires
        forest(nodes),
    ensures
        listed_options(nodes, select_id).no_duplicates(),
{
    lemma_forest_preorder_nodup(nodes, select_id, nodes.len());
    lemma_listed_options_in_nodup(nodes, select_id, preorder(nodes, select_id, nodes.len()));
}

/// After syncing a select of a forest, its options sit on distinct nodes.
pub proof fn lemma_synced_options_distinct(nodes: Seq<DomNode>, select_id: usize, after: Seq<DomNode>)
    requires
        forest(nodes),
        select_id < nodes.len(),
        synced_into(nodes, select_id, after),
    ensures
        option_ids_distinct(options_of(after, select_id)),
{
    let opts = listed_options(nodes, select_id);
    lemma_listed_options_distinct(nodes, select_id);
    let sd = select_data_of(after[select_id as int])->0;
    assert forall|i: int, j: int| 0 <= i < j < sd.options@.len() implies sd.options@[i].node_id != sd.options@[j].node_id by {
        assert(sd.options@[i].node_id == opts[i]);
        assert(sd.options@[j].node_id == opts[j]);
    }
}

} // verus!
