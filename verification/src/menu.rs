//! The entries of a native popup menu that stands in for a `<select>`, and
//! the ids that tie a chosen menu entry back to an option.

use vstd::prelude::*;

use crate::text::{
    decimal_digits, escape_ampersand_label, escape_ampersands, lemma_parse_decimal_digits,
    parse_usize, parse_usize_spec, push_char, push_decimal, starts_with,
};

verus! {

/// An option as a native menu request lists it.
pub struct NativeSelectMenuItem {
    pub label: String,
    pub disabled: bool,
}

/// One entry of the native menu: its id, the label it shows, and its state.
pub struct MenuEntry {
    pub id: String,
    pub label: String,
    pub enabled: bool,
    pub checked: bool,
}

/// The id prefix of the menu entries of select `select_id`: `blitz-select:<id>:`.
pub open spec fn menu_id_prefix_spec(select_id: usize) -> Seq<char> {
    "blitz-select:"@ + decimal_digits(select_id as nat) + ":"@
}

/// The id of entry `index` of the menu of select `select_id`.
pub open spec fn menu_item_id_spec(select_id: usize, index: usize) -> Seq<char> {
    menu_id_prefix_spec(select_id) + decimal_digits(index as nat)
}

/// The entry index that a menu id names for select `select_id`: the number
/// after the select's prefix.
pub open spec fn menu_item_index_spec(id: Seq<char>, select_id: usize) -> Option<usize> {
    let prefix = menu_id_prefix_spec(select_id);
    if prefix.len() <= id.len() && id.subrange(0, prefix.len() as int) == prefix {
        parse_usize_spec(id.subrange(prefix.len() as int, id.len() as int))
    } else {
        None
    }
}

/// `label` with each `&` doubled, since the menu toolkit reads a single `&`
/// as a mnemonic marker.
pub fn escape_muda_menu_label(label: &str) -> (res: String)
    ensures
        res@ == escape_ampersands(label@),
{
    escape_ampersand_label(label)
}

/// The id prefix of the menu entries of select `select_id`.
pub fn menu_id_prefix(select_id: usize) -> (res: String)
    ensures
        res@ == menu_id_prefix_spec(select_id),
{
    let mut out = String::from_str("blitz-select:");
    push_decimal(&mut out, select_id);
    push_char(&mut out, ':');
    proof {
        reveal_strlit(":");
        assert(out@ =~= menu_id_prefix_spec(select_id));
    }
    out
}

/// The id of entry `index` of the menu of select `select_id`.
pub fn menu_item_id(select_id: usize, index: usize) -> (res: String)
    ensures
        res@ == menu_item_id_spec(select_id, index),
{
    let mut out = menu_id_prefix(select_id);
    push_decimal(&mut out, index);
    out
}

/// The entry index that the menu id `id` names for select `select_id`.
pub fn menu_item_index(id: &str, select_id: usize) -> (res: Option<usize>)
    ensures
        res == menu_item_index_spec(id@, select_id),
{
    let prefix = menu_id_prefix(select_id);
    if !starts_with(id, prefix.as_str()) {
        return None;
    }
    let plen = prefix.unicode_len();
    let len = id.unicode_len();
    let rest = id.substring_char(plen, len);
    parse_usize(rest)
}

/// The menu entries for the options `items` of select `select_id`, with the
/// entry at `selected_index` checked.
pub fn native_menu_entries(select_id: usize, items: &Vec<NativeSelectMenuItem>, selected_index: Option<usize>) -> (res: Vec<MenuEntry>)
    ensures
        res@.len() == items@.len(),
        forall|k: int|
            0 <= k < items@.len() ==> {
                &&& (#[trigger] res@[k]).id@ == menu_item_id_spec(select_id, k as usize)
                &&& res@[k].label@ == escape_ampersands(items@[k].label@)
                &&& res@[k].enabled == !items@[k].disabled
                &&& res@[k].checked == (selected_index == Some(k as usize))
            },
{
    let mut res: Vec<MenuEntry> = Vec::new();
    let mut k: usize = 0;
    while k < items.len()
        invariant
            k <= items@.len(),
            res@.len() == k,
            forall|j: int|
                0 <= j < k ==> {
                    &&& (#[trigger] res@[j]).id@ == menu_item_id_spec(select_id, j as usize)
                    &&& res@[j].label@ == escape_ampersands(items@[j].label@)
                    &&& res@[j].enabled == !items@[j].disabled
                    &&& res@[j].checked == (selected_index == Some(j as usize))
                },
        decreases items@.len() - k,
    {
        let item = &items[k];
        let checked = match selected_index {
            Some(s) => s == k,
            None => false,
        };
        res.push(
            MenuEntry {
                id: menu_item_id(select_id, k),
                label: escape_muda_menu_label(item.label.as_str()),
                enabled: !item.disabled,
                checked,
            },
        );
        k = k + 1;
    }
    res
}

/// Reading back the id of a menu entry gives the entry's index: the ids that
/// `menu_item_id` hands out are told apart by `menu_item_index`.
pub proof fn lemma_menu_item_id_round_trip(select_id: usize, index: usize)
    ensures
        menu_item_index_spec(menu_item_id_spec(select_id, index), select_id) == Some(index),
{
    let prefix = menu_id_prefix_spec(select_id);
    let digits = decimal_digits(index as nat);
    let id = menu_item_id_spec(select_id, index);
    assert(id.subrange(0, prefix.len() as int) =~= prefix);
    assert(id.subrange(prefix.len() as int, id.len() as int) =~= digits);
    lemma_parse_decimal_digits(index);
}

/// `s` with each pair `&&` read left to right collapsed to one `&`, as
/// `str::replace("&&", "&")` does.
pub open spec fn collapse_ampersands(s: Seq<char>) -> Seq<char>
    decreases s.len(),
{
    if s.len() == 0 {
        Seq::empty()
    } else if s.len() >= 2 && s[0] == '&' && s[1] == '&' {
        seq!['&'] + collapse_ampersands(s.subrange(2, s.len() as int))
    } else {
        seq![s[0]] + collapse_ampersands(s.drop_first())
    }
}

proof fn lemma_escape_concat(a: Seq<char>, b: Seq<char>)
    ensures
        escape_ampersands(a + b) == escape_ampersands(a) + escape_ampersands(b),
    decreases b.len(),
{
    if b.len() == 0 {
        assert(a + b =~= a);
        assert(escape_ampersands(a) + escape_ampersands(b) =~= escape_ampersands(a));
    } else {
        let ab = a + b;
        assert(ab.drop_last() =~= a + b.drop_last());
        assert(ab.last() == b.last());
        lemma_escape_concat(a, b.drop_last());
        if b.last() == '&' {
            assert(escape_ampersands(a) + escape_ampersands(b) =~= escape_ampersands(a) + escape_ampersands(b.drop_last())
                + seq!['&', '&']);
        } else {
            assert(escape_ampersands(a) + escape_ampersands(b) =~= (escape_ampersands(a) + escape_ampersands(
                b.drop_last(),
            )).push(b.last()));
        }
    }
}

/// Collapsing each doubled `&` of an escaped menu label gives the label back:
/// the escape loses nothing.
pub proof fn lemma_collapse_undoes_escape(s: Seq<char>)
    ensures
        collapse_ampersands(escape_ampersands(s)) == s,
    decreases s.len(),
{
    if s.len() > 0 {
        let head = seq![s[0]];
        let rest = s.drop_first();
        assert(s =~= head + rest);
        lemma_escape_concat(head, rest);
        assert(head.drop_last() =~= Seq::<char>::empty());
        assert(escape_ampersands(Seq::<char>::empty()) == Seq::<char>::empty());
        assert(escape_ampersands(head.drop_last()) == Seq::<char>::empty());
        assert(head.last() == s[0]);
        lemma_collapse_undoes_escape(rest);
        let e = escape_ampersands(s);
        if s[0] == '&' {
            assert(escape_ampersands(head) =~= seq!['&', '&']);
            assert(e.subrange(2, e.len() as int) =~= escape_ampersands(rest));
        } else {
            assert(escape_ampersands(head) =~= seq![s[0]]);
            assert(e.drop_first() =~= escape_ampersands(rest));
        }
        assert(collapse_ampersands(e) =~= s);
    }
}

/// The entry index that the first of the menu ids `ids` naming an entry of
/// select `select_id` names (`None` when none does).
pub fn first_menu_choice(ids: &Vec<String>, select_id: usize) -> (res: Option<usize>)
    ensures
        match res {
            Some(i) => exists|k: int|
                0 <= k < ids@.len() && menu_item_index_spec(#[trigger] ids@[k]@, select_id) == Some(i) && forall|j: int|
                    0 <= j < k ==> menu_item_index_spec(#[trigger] ids@[j]@, select_id) is None,
            None => forall|k: int| 0 <= k < ids@.len() ==> menu_item_index_spec(#[trigger] ids@[k]@, select_id) is None,
        },
{
    let mut k: usize = 0;
    while k < ids.len()
        invariant
            k <= ids@.len(),
            forall|j: int| 0 <= j < k ==> menu_item_index_spec(#[trigger] ids@[j]@, select_id) is None,
        decreases ids@.len() - k,
    {
        match menu_item_index(ids[k].as_str(), select_id) {
            Some(i) => {
                return Some(i);
            },
            None => {},
        }
        k = k + 1;
    }
    None
}

} // verus!
