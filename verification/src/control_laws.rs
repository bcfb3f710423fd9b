//! What the select operations are for, stated over the document itself:
//! which options a select lists, what type-ahead matches, what closing does
//! and what a select submits.

use vstd::prelude::*;

use crate::dom::{
    BaseDocument, DomNode, SelectMode, SelectOption, is_element_named, node_selected, preorder,
    select_data_of, with_select_state,
};
use crate::select::{
    closed_nodes, with_open, form_positions, form_values_spec, is_listed_option, label_matches,
    listed_options, listed_options_in, opens, options_of, prefix_scan, prefix_search,
    search_start, synced_into, has_prefix, selected_indices, search_base,
};
use crate::select_laws::{lemma_form_values_selected_enabled, lemma_selected_positions, strictly_increasing};
use crate::text::lowercase;

verus! {

/// Whether `s` begins with `p`, written out.
pub open spec fn begins_with(s: Seq<char>, p: Seq<char>) -> bool {
    p.len() <= s.len() && forall|i: int| 0 <= i < p.len() ==> #[trigger] s[i] == p[i]
}

#[verifier::spinoff_prover]
proof fn lemma_listed_options_in_contains(nodes: Seq<DomNode>, select_id: usize, ids: Seq<usize>, x: usize)
    ensures
        listed_options_in(nodes, select_id, ids).contains(x) <==> (ids.contains(x) && is_listed_option(
            nodes,
            select_id,
            x,
        )),
    decreases ids.len(),
{
    if ids.len() > 0 {
        let init = ids.drop_last();
        let rest = listed_options_in(nodes, select_id, init);
        let all = listed_options_in(nodes, select_id, ids);
        lemma_listed_options_in_contains(nodes, select_id, init, x);
        if all.contains(x) {
            let w = choose|w: int| 0 <= w < all.len() && all[w] == x;
            if w < rest.len() {
                assert(rest[w] == x);
                assert(rest.contains(x));
                let v = choose|v: int| 0 <= v < init.len() && init[v] == x;
                assert(ids[v] == x);
            } else {
                assert(ids[ids.len() - 1] == x);
            }
        }
        if ids.contains(x) && is_listed_option(nodes, select_id, x) {
            let w = choose|w: int| 0 <= w < ids.len() && ids[w] == x;
            if w < init.len() {
                assert(init[w] == x);
                assert(rest.contains(x));
                let v = choose|v: int| 0 <= v < rest.len() && rest[v] == x;
                assert(all[v] == x);
            } else {
                assert(all[all.len() - 1] == x);
            }
        }
    }
}

/// Syncing a select lists exactly the `<option>` elements below it, at any
/// depth (inside an `<optgroup>` too): each such element is among the
/// select's options, and each option is such an element.
#[verifier::spinoff_prover]
pub proof fn lemma_synced_options_are_the_option_elements_below(
    nodes: Seq<DomNode>,
    select_id: usize,
    after: Seq<DomNode>,
)
    requires
        select_id < nodes.len(),
        synced_into(nodes, select_id, after),
    ensures
        forall|x: usize|
            #[trigger] preorder(nodes, select_id, nodes.len()).contains(x) && x != select_id && x < nodes.len()
                && is_element_named(nodes[x as int], "option"@) ==> exists|k: int|
                0 <= k < options_of(after, select_id).len() && #[trigger] options_of(after, select_id)[k].node_id == x,
        forall|k: int|
            0 <= k < options_of(after, select_id).len() ==> {
                let x = #[trigger] options_of(after, select_id)[k].node_id;
                &&& preorder(nodes, select_id, nodes.len()).contains(x)
                &&& x != select_id
                &&& x < nodes.len()
                &&& is_element_named(nodes[x as int], "option"@)
            },
{
    let opts = listed_options(nodes, select_id);
    let ids = preorder(nodes, select_id, nodes.len());
    let sd = select_data_of(after[select_id as int])->0;
    assert(options_of(after, select_id) == sd.options@);
    assert forall|x: usize|
        #[trigger] ids.contains(x) && x != select_id && x < nodes.len() && is_element_named(nodes[x as int], "option"@)
            implies exists|k: int| 0 <= k < sd.options@.len() && #[trigger] sd.options@[k].node_id == x by {
        lemma_listed_options_in_contains(nodes, select_id, ids, x);
        let k = choose|k: int| 0 <= k < opts.len() && opts[k] == x;
        assert(sd.options@[k].node_id == opts[k]);
    }
    assert forall|k: int| 0 <= k < sd.options@.len() implies {
        let x = #[trigger] sd.options@[k].node_id;
        &&& ids.contains(x)
        &&& x != select_id
        &&& x < nodes.len()
        &&& is_element_named(nodes[x as int], "option"@)
    } by {
        let x = sd.options@[k].node_id;
        assert(x == opts[k]);
        assert(opts.contains(x));
        lemma_listed_options_in_contains(nodes, select_id, ids, x);
    }
}

/// Whether `x` comes before `y` in `ids`.
pub open spec fn comes_before(ids: Seq<usize>, x: usize, y: usize) -> bool {
    exists|p: int, q: int| #![trigger ids[p], ids[q]] 0 <= p < q < ids.len() && ids[p] == x && ids[q] == y
}

#[verifier::spinoff_prover]
proof fn lemma_listed_options_in_order(nodes: Seq<DomNode>, select_id: usize, ids: Seq<usize>)
    ensures
        forall|a: int, b: int|
            0 <= a < b < listed_options_in(nodes, select_id, ids).len() ==> comes_before(
                ids,
                #[trigger] listed_options_in(nodes, select_id, ids)[a],
                #[trigger] listed_options_in(nodes, select_id, ids)[b],
            ),
    decreases ids.len(),
{
    if ids.len() > 0 {
        let init = ids.drop_last();
        let rest = listed_options_in(nodes, select_id, init);
        let all = listed_options_in(nodes, select_id, ids);
        lemma_listed_options_in_order(nodes, select_id, init);
        assert forall|a: int, b: int| 0 <= a < b < all.len() implies comes_before(ids, #[trigger] all[a], #[trigger] all[b]) by {
            if b < rest.len() {
                assert(all[a] == rest[a] && all[b] == rest[b]);
                assert(comes_before(init, rest[a], rest[b]));
                let (p, q) = choose|p: int, q: int| #![trigger init[p], init[q]] 0 <= p < q < init.len() && init[p] == rest[a] && init[q] == rest[b];
                assert(ids[p] == init[p] && ids[q] == init[q]);
            } else {
                assert(all[a] == rest[a]);
                assert(all[b] == ids[ids.len() - 1]);
                lemma_listed_options_in_contains(nodes, select_id, init, rest[a]);
                assert(rest.contains(rest[a]));
                let p = choose|p: int| 0 <= p < init.len() && init[p] == rest[a];
                assert(ids[p] == init[p]);
                assert(ids[p] == all[a] && ids[ids.len() - 1] == all[b]);
            }
        }
    }
}

/// Syncing a select lists its options in document order: of two options,
/// the earlier one comes first in a walk down from the select.
#[verifier::spinoff_prover]
pub proof fn lemma_synced_options_in_document_order(nodes: Seq<DomNode>, select_id: usize, after: Seq<DomNode>)
    requires
        select_id < nodes.len(),
        synced_into(nodes, select_id, after),
    ensures
        forall|a: int, b: int|
            0 <= a < b < options_of(after, select_id).len() ==> comes_before(
                preorder(nodes, select_id, nodes.len()),
                #[trigger] options_of(after, select_id)[a].node_id,
                #[trigger] options_of(after, select_id)[b].node_id,
            ),
{
    let ids = preorder(nodes, select_id, nodes.len());
    let opts = listed_options(nodes, select_id);
    let sd = select_data_of(after[select_id as int])->0;
    assert(options_of(after, select_id) == sd.options@);
    lemma_listed_options_in_order(nodes, select_id, ids);
    assert forall|a: int, b: int| 0 <= a < b < sd.options@.len() implies comes_before(
        ids,
        #[trigger] sd.options@[a].node_id,
        #[trigger] sd.options@[b].node_id,
    ) by {
        assert(sd.options@[a].node_id == opts[a] && sd.options@[b].node_id == opts[b]);
        assert(comes_before(ids, opts[a], opts[b]));
    }
}

#[verifier::spinoff_prover]
proof fn lemma_scan_finds(options: Seq<SelectOption>, start: int, lower_prefix: Seq<char>, offset: int, target: int)
    requires
        0 <= offset <= target < options.len(),
        label_matches(options[(start + target) % (options.len() as int)], lower_prefix),
    ensures
        prefix_scan(options, start, lower_prefix, offset) is Some,
    decreases target - offset,
{
    if offset < target {
        let idx = (start + offset) % (options.len() as int);
        if !label_matches(options[idx], lower_prefix) {
            lemma_scan_finds(options, start, lower_prefix, offset + 1, target);
        }
    }
}

#[verifier::spinoff_prover]
proof fn lemma_scan_matches(options: Seq<SelectOption>, start: int, lower_prefix: Seq<char>, offset: int)
    requires
        0 <= offset,
        options.len() <= usize::MAX,
    ensures
        prefix_scan(options, start, lower_prefix, offset) matches Some(i) ==> i < options.len()
            && label_matches(options[i as int], lower_prefix),
    decreases options.len() - offset,
{
    if offset < options.len() {
        lemma_scan_matches(options, start, lower_prefix, offset + 1);
    }
}

/// Type-ahead search matches on labels: what it finds is an enabled option
/// whose lowercased label begins with the lowercased prefix, and when any
/// enabled option's lowercased label does, the search finds one.
#[verifier::spinoff_prover]
pub proof fn lemma_prefix_search_matches_labels(nodes: Seq<DomNode>, select_id: usize, prefix: Seq<char>)
    requires
        select_id < nodes.len(),
        prefix.len() > 0,
        options_of(nodes, select_id).len() <= usize::MAX,
    ensures
        prefix_search(nodes, select_id, prefix) matches Some(i) ==> {
            let opts = options_of(nodes, select_id);
            &&& i < opts.len()
            &&& !opts[i as int].disabled
            &&& begins_with(lowercase(opts[i as int].label@), lowercase(prefix))
        },
        (exists|k: int|
            0 <= k < options_of(nodes, select_id).len() && !options_of(nodes, select_id)[k].disabled && begins_with(
                lowercase(#[trigger] options_of(nodes, select_id)[k].label@),
                lowercase(prefix),
            )) ==> prefix_search(nodes, select_id, prefix) is Some,
{
    let lp = lowercase(prefix);
    match select_data_of(nodes[select_id as int]) {
        None => {},
        Some(sd) => {
            let opts = sd.options@;
            let start = search_start(nodes, select_id, sd);
            assert(start >= 0);
            lemma_scan_matches(opts, start, lp, 0);
            match prefix_scan(opts, start, lp, 0) {
                Some(i) => {
                    let lab = lowercase(opts[i as int].label@);
                    assert(lab.subrange(0, lp.len() as int) == lp);
                    assert forall|j: int| 0 <= j < lp.len() implies #[trigger] lab[j] == lp[j] by {
                        assert(lab.subrange(0, lp.len() as int)[j] == lab[j]);
                    }
                },
                None => {},
            }
            if exists|k: int|
                0 <= k < opts.len() && !opts[k].disabled && begins_with(lowercase(#[trigger] opts[k].label@), lp) {
                let k = choose|k: int|
                    0 <= k < opts.len() && !opts[k].disabled && begins_with(lowercase(#[trigger] opts[k].label@), lp);
                let n = opts.len() as int;
                let lab = lowercase(opts[k].label@);
                assert(lab.subrange(0, lp.len() as int) =~= lp);
                assert(label_matches(opts[k], lp));
                let t = (k - start) % n;
                assert((start + t) % n == k) by {
                    vstd::arithmetic::div_mod::lemma_fundamental_div_mod(k - start, n);
                    vstd::arithmetic::div_mod::lemma_mod_multiples_vanish(-((k - start) / n), k, n);
                    vstd::arithmetic::div_mod::lemma_small_mod(k as nat, n as nat);
                    assert(start + t == n * (-((k - start) / n)) + k) by (nonlinear_arith)
                        requires
                            k - start == n * ((k - start) / n) + t,
                    ;
                }
                assert(0 <= t < n) by {
                    vstd::arithmetic::div_mod::lemma_mod_bound(k - start, n);
                }
                lemma_scan_finds(opts, start, lp, 0, t);
            }
        },
    }
}

#[verifier::spinoff_prover]
proof fn lemma_begins_with_has_prefix(s: Seq<char>, p: Seq<char>)
    ensures
        begins_with(s, p) <==> has_prefix(s, p),
{
    if begins_with(s, p) {
        assert(s.subrange(0, p.len() as int) =~= p);
    }
    if has_prefix(s, p) {
        assert forall|i: int| 0 <= i < p.len() implies #[trigger] s[i] == p[i] by {
            assert(s.subrange(0, p.len() as int)[i] == s[i]);
        }
    }
}

/// Whether option `o` matches a search for `lower_prefix`, written out:
/// enabled, with a lowercased label that begins with the prefix.
pub open spec fn matches_typed(o: SelectOption, lower_prefix: Seq<char>) -> bool {
    !o.disabled && begins_with(lowercase(o.label@), lower_prefix)
}

/// Whether `start` is where a search of a select with data `sd` begins:
/// just after the active option; with none, just after the first option
/// marked selected; with neither, at the top.
pub open spec fn search_begins_at(nodes: Seq<DomNode>, sd: crate::dom::SelectData, start: int) -> bool {
    let opts = sd.options@;
    match sd.active_index {
        Some(a) => start == a + 1,
        None => if exists|k: int| 0 <= k < opts.len() && #[trigger] node_selected(nodes, opts[k].node_id as int) {
            exists|k: int|
                0 <= k < opts.len() && #[trigger] node_selected(nodes, opts[k].node_id as int) && start == k + 1
                    && forall|j: int| 0 <= j < k ==> !#[trigger] node_selected(nodes, opts[j].node_id as int)
        } else {
            start == 0
        },
    }
}

#[verifier::spinoff_prover]
proof fn lemma_scan_first(options: Seq<SelectOption>, start: int, lp: Seq<char>, offset: int)
    requires
        0 <= offset,
        options.len() <= usize::MAX,
    ensures
        prefix_scan(options, start, lp, offset) matches Some(i) ==> exists|t: int|
            offset <= t < options.len() && (start + t) % (options.len() as int) == i && #[trigger] label_matches(
                options[(start + t) % (options.len() as int)],
                lp,
            ) && forall|u: int|
                offset <= u < t ==> !#[trigger] label_matches(options[(start + u) % (options.len() as int)], lp),
    decreases options.len() - offset,
{
    if offset < options.len() {
        lemma_scan_first(options, start, lp, offset + 1);
        let n = options.len() as int;
        if !label_matches(options[(start + offset) % n], lp) {
            match prefix_scan(options, start, lp, offset) {
                Some(i) => {
                    let t = choose|t: int|
                        offset + 1 <= t < n && (start + t) % n == i && #[trigger] label_matches(options[(start + t) % n], lp)
                            && forall|u: int| offset + 1 <= u < t ==> !#[trigger] label_matches(options[(start + u) % n], lp);
                    assert forall|u: int| offset <= u < t implies !#[trigger] label_matches(options[(start + u) % n], lp) by {
                        if u > offset {
                        }
                    }
                },
                None => {},
            }
        } else {
            let idx = (start + offset) % n;
            assert(0 <= idx < n);
            assert(prefix_scan(options, start, lp, offset) == Some(idx as usize));
            assert((start + offset) % n == idx as usize);
            assert forall|u: int| offset <= u < offset implies !#[trigger] label_matches(options[(start + u) % n], lp) by {
            }
        }
    }
}

/// Type-ahead search finds the first matching option going round from where
/// the search begins (just after the active option, else the first selected
/// one, else the top): no option before it on the way matches.
#[verifier::spinoff_prover]
pub proof fn lemma_prefix_search_finds_first(nodes: Seq<DomNode>, select_id: usize, prefix: Seq<char>)
    requires
        select_id < nodes.len(),
        prefix.len() > 0,
        options_of(nodes, select_id).len() <= usize::MAX,
    ensures
        prefix_search(nodes, select_id, prefix) matches Some(i) ==> {
            let sd = select_data_of(nodes[select_id as int])->0;
            let opts = sd.options@;
            let n = opts.len() as int;
            exists|start: int, t: int|
                #![trigger search_begins_at(nodes, sd, start), opts[(start + t) % n]]
                search_begins_at(nodes, sd, start) && 0 <= t < n && (start + t) % n == i && matches_typed(
                    opts[(start + t) % n],
                    lowercase(prefix),
                ) && forall|u: int|
                    0 <= u < t ==> !matches_typed(#[trigger] opts[(start + u) % n], lowercase(prefix))
        },
{
    let lp = lowercase(prefix);
    match select_data_of(nodes[select_id as int]) {
        None => {},
        Some(sd) => {
            let opts = sd.options@;
            let n = opts.len() as int;
            let start = search_start(nodes, select_id, sd);
            lemma_scan_first(opts, start, lp, 0);
            match prefix_scan(opts, start, lp, 0) {
                Some(i) => {
                    let t = choose|t: int|
                        0 <= t < n && (start + t) % n == i && #[trigger] label_matches(opts[(start + t) % n], lp)
                            && forall|u: int| 0 <= u < t ==> !#[trigger] label_matches(opts[(start + u) % n], lp);
                    lemma_begins_with_has_prefix(lowercase(opts[(start + t) % n].label@), lp);
                    assert(matches_typed(opts[(start + t) % n], lp));
                    assert forall|u: int| 0 <= u < t implies !matches_typed(#[trigger] opts[(start + u) % n], lp) by {
                        assert(!label_matches(opts[(start + u) % n], lp));
                        lemma_begins_with_has_prefix(lowercase(opts[(start + u) % n].label@), lp);
                    }
                    // where the search begins
                    match sd.active_index {
                        Some(a) => {},
                        None => {
                            let sel = selected_indices(nodes, select_id);
                            lemma_selected_positions(nodes, sd, n);
                            if exists|k: int| 0 <= k < opts.len() && #[trigger] node_selected(nodes, opts[k].node_id as int) {
                                let k0 = choose|k: int| 0 <= k < opts.len() && #[trigger] node_selected(nodes, opts[k].node_id as int);
                                assert(sel.contains(k0 as usize));
                                assert(sel.len() > 0);
                                let f = sel[0];
                                assert(sel.contains(f));
                                assert forall|j: int| 0 <= j < f implies !#[trigger] node_selected(nodes, opts[j].node_id as int) by {
                                    if node_selected(nodes, opts[j].node_id as int) {
                                        assert(sel.contains(j as usize));
                                        let w = choose|w: int| 0 <= w < sel.len() && sel[w] == j as usize;
                                        if w > 0 {
                                            assert(sel[0] < sel[w]);
                                        }
                                    }
                                }
                                assert(node_selected(nodes, opts[f as int].node_id as int));
                            } else {
                                if sel.len() > 0 {
                                    assert(sel.contains(sel[0]));
                                }
                            }
                        },
                    }
                    assert(search_begins_at(nodes, sd, start));
                },
                None => {},
            }
        },
    }
}

/// Closing the open popup closes its select: the select that was open has
/// its open flag cleared, keeps its mode, options and active option, and no
/// other node changes.
#[verifier::spinoff_prover]
pub proof fn lemma_close_closes_the_select(doc: &BaseDocument)
    requires
        doc.wf(),
    ensures
        closed_nodes(doc).len() == doc.nodes@.len(),
        doc.open_select_id is Some && select_data_of(doc.nodes@[doc.open_select_id->0 as int]) is Some ==> {
            let s = doc.open_select_id->0;
            let before = select_data_of(doc.nodes@[s as int])->0;
            let after = select_data_of(closed_nodes(doc)[s as int]);
            &&& after is Some
            &&& !after->0.open
            &&& after->0.mode == before.mode
            &&& after->0.options == before.options
            &&& after->0.active_index == before.active_index
        },
        forall|i: int|
            0 <= i < doc.nodes@.len() && doc.open_select_id != Some(i as usize) ==> #[trigger] closed_nodes(doc)[i]
                == doc.nodes@[i],
{
    match doc.open_select_id {
        Some(s) => {
            assert(s < doc.nodes@.len());
            match select_data_of(doc.nodes@[s as int]) {
                Some(before) => {
                    let node = doc.nodes@[s as int];
                    assert(closed_nodes(doc)[s as int] == with_open(node, false));
                    assert(with_open(node, false) == with_select_state(node, false, before.active_index, before.anchor_index));
                    let after = select_data_of(with_open(node, false));
                    assert(after matches Some(a) && !a.open);
                    assert(after->0.mode == before.mode);
                    assert(after->0.options == before.options);
                    assert(after->0.active_index == before.active_index);
                    assert(select_data_of(closed_nodes(doc)[s as int]) == after);
                },
                None => {},
            }
        },
        None => {},
    }
}

/// After closing, a dropdown opens again: the select whose popup was open
/// opens once the popup is closed.
#[verifier::spinoff_prover]
pub proof fn lemma_reopen_after_close(doc: &BaseDocument)
    requires
        doc.wf(),
        doc.open_select_id matches Some(s) && select_data_of(doc.nodes@[s as int]) matches Some(sd) && sd.mode
            == SelectMode::Dropdown,
    ensures
        opens(closed_nodes(doc), doc.open_select_id->0),
{
}

/// What a select submits: each pair is the value and the label of an enabled
/// option marked selected, in option order; every enabled selected option
/// gives a pair.
#[verifier::spinoff_prover]
pub proof fn lemma_form_values_are_value_label_pairs(nodes: Seq<DomNode>, select_id: usize)
    requires
        select_id < nodes.len(),
        options_of(nodes, select_id).len() <= usize::MAX,
    ensures
        forall|j: int|
            #![trigger form_values_spec(nodes, select_id)[j]]
            0 <= j < form_values_spec(nodes, select_id).len() ==> exists|k: int|
                #![trigger options_of(nodes, select_id)[k]]
                0 <= k < options_of(nodes, select_id).len() && !options_of(nodes, select_id)[k].disabled
                    && node_selected(nodes, options_of(nodes, select_id)[k].node_id as int)
                    && form_values_spec(nodes, select_id)[j] == (
                    options_of(nodes, select_id)[k].value@,
                    options_of(nodes, select_id)[k].label@,
                ),
        forall|k: int|
            0 <= k < options_of(nodes, select_id).len() && !options_of(nodes, select_id)[k].disabled && node_selected(
                nodes,
                #[trigger] options_of(nodes, select_id)[k].node_id as int,
            ) ==> form_values_spec(nodes, select_id).contains(
                (options_of(nodes, select_id)[k].value@, options_of(nodes, select_id)[k].label@),
            ),
{
    match select_data_of(nodes[select_id as int]) {
        None => {},
        Some(sd) => {
            let opts = options_of(nodes, select_id);
            assert(opts == sd.options@);
            let m = opts.len() as int;
            let pos = form_positions(nodes, sd, m);
            let fv = form_values_spec(nodes, select_id);
            lemma_form_values_selected_enabled(nodes, sd, m);
            assert(fv.len() == pos.len());
            assert forall|j: int| #![trigger fv[j]] 0 <= j < fv.len() implies exists|k: int|
                #![trigger opts[k]]
                0 <= k < opts.len() && !opts[k].disabled && node_selected(nodes, opts[k].node_id as int)
                    && fv[j] == (opts[k].value@, opts[k].label@) by {
                let k = pos[j] as int;
                assert(pos[j] < m);
                assert(fv[j] == (opts[k].value@, opts[k].label@));
                assert(!opts[k].disabled && node_selected(nodes, opts[k].node_id as int));
                assert(0 <= k < opts.len() && !opts[k].disabled && node_selected(nodes, opts[k].node_id as int)
                    && fv[j] == (opts[k].value@, opts[k].label@));
            }
            assert forall|k: int|
                0 <= k < opts.len() && !opts[k].disabled && node_selected(nodes, #[trigger] opts[k].node_id as int)
                    implies fv.contains((opts[k].value@, opts[k].label@)) by {
                lemma_form_positions_contains(nodes, sd, m, k);
                let j = choose|j: int| 0 <= j < pos.len() && pos[j] == k as usize;
                assert(fv[j] == (opts[k].value@, opts[k].label@));
            }
        },
    }
}

/// Whether option `k` of `opts` is submitted: enabled and marked selected.
pub open spec fn submits(nodes: Seq<DomNode>, opts: Seq<SelectOption>, k: int) -> bool {
    0 <= k < opts.len() && !opts[k].disabled && node_selected(nodes, opts[k].node_id as int)
}

/// What a select submits, in full: one (value, label) pair per enabled
/// selected option, in option order, and nothing else.
#[verifier::spinoff_prover]
pub proof fn lemma_form_values_in_option_order(nodes: Seq<DomNode>, select_id: usize)
    requires
        select_id < nodes.len(),
        options_of(nodes, select_id).len() <= usize::MAX,
    ensures
        exists|pos: Seq<usize>|
            #![trigger strictly_increasing(pos)]
            {
                let opts = options_of(nodes, select_id);
                let fv = form_values_spec(nodes, select_id);
                &&& strictly_increasing(pos)
                &&& pos.len() == fv.len()
                &&& forall|j: int|
                    0 <= j < pos.len() ==> submits(nodes, opts, #[trigger] pos[j] as int) && fv[j] == (
                        opts[pos[j] as int].value@,
                        opts[pos[j] as int].label@,
                    )
                &&& forall|k: int| #[trigger] submits(nodes, opts, k) ==> pos.contains(k as usize)
            },
{
    let opts = options_of(nodes, select_id);
    let fv = form_values_spec(nodes, select_id);
    match select_data_of(nodes[select_id as int]) {
        None => {
            let pos = Seq::<usize>::empty();
            assert forall|k: int| #[trigger] submits(nodes, opts, k) implies pos.contains(k as usize) by {
            }
            assert(fv.len() == 0);
            assert(strictly_increasing(pos));
        },
        Some(sd) => {
            assert(opts == sd.options@);
            let m = opts.len() as int;
            let pos = form_positions(nodes, sd, m);
            lemma_form_values_selected_enabled(nodes, sd, m);
            assert forall|j: int| 0 <= j < pos.len() implies submits(nodes, opts, #[trigger] pos[j] as int) && fv[j] == (
                opts[pos[j] as int].value@,
                opts[pos[j] as int].label@,
            ) by {
                assert(pos[j] < m);
            }
            assert forall|k: int| #[trigger] submits(nodes, opts, k) implies pos.contains(k as usize) by {
                lemma_form_positions_contains(nodes, sd, m, k);
            }
            assert(strictly_increasing(pos));
        },
    }
}

#[verifier::spinoff_prover]
proof fn lemma_form_positions_contains(nodes: Seq<DomNode>, sd: crate::dom::SelectData, upto: int, k: int)
    requires
        0 <= k < upto <= sd.options@.len(),
        sd.options@.len() <= usize::MAX,
        !sd.options@[k].disabled,
        node_selected(nodes, sd.options@[k].node_id as int),
    ensures
        form_positions(nodes, sd, upto).contains(k as usize),
    decreases upto,
{
    let all = form_positions(nodes, sd, upto);
    if k == upto - 1 {
        assert(all[all.len() - 1] == k as usize);
    } else {
        lemma_form_positions_contains(nodes, sd, upto - 1, k);
        let rest = form_positions(nodes, sd, upto - 1);
        let w = choose|w: int| 0 <= w < rest.len() && rest[w] == k as usize;
        assert(all[w] == k as usize);
    }
}

} // verus!
