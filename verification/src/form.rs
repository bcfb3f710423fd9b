//! Form ownership of controls and the name/value pairs a control submits.

use vstd::prelude::*;

use crate::dom::{BaseDocument, DomNode, is_element_named, node_attr};
use crate::select::{form_values_spec};

verus! {

broadcast use vstd::std_specs::hash::group_hash_axioms;

/// The nearest `<form>` element among `cur` and its ancestors, following at
/// most `fuel` parents.
pub open spec fn ancestor_form(nodes: Seq<DomNode>, cur: Option<usize>, fuel: nat) -> Option<usize>
    decreases fuel,
{
    match cur {
        None => None,
        Some(p) => if fuel == 0 || p >= nodes.len() {
            None
        } else if is_element_named(nodes[p as int], "form"@) {
            Some(p)
        } else {
            ancestor_form(nodes, nodes[p as int].parent, (fuel - 1) as nat)
        },
    }
}

/// The form that owns control `control_id`: its nearest `<form>` ancestor.
pub open spec fn form_owner_spec(nodes: Seq<DomNode>, control_id: usize) -> Option<usize> {
    ancestor_form(nodes, nodes[control_id as int].parent, nodes.len())
}

/// The name/value pairs that control `control_id` submits: for a named
/// select, its name with the value of each enabled selected option.
pub open spec fn form_event_values_spec(nodes: Seq<DomNode>, control_id: usize) -> Seq<(Seq<char>, Seq<char>)> {
    match node_attr(nodes[control_id as int], "name"@) {
        Some(name) => if name.len() > 0 && is_element_named(nodes[control_id as int], "select"@) {
            form_values_spec(nodes, control_id).map_values(|p: (Seq<char>, Seq<char>)| (name, p.0))
        } else {
            Seq::empty()
        },
        None => Seq::empty(),
    }
}

impl BaseDocument {
    /// The form that owns control `control_id`: its nearest `<form>` ancestor.
    pub fn form_owner(&self, control_id: usize) -> (res: Option<usize>)
        requires
            self.wf(),
            control_id < self.nodes@.len(),
        ensures
            res == form_owner_spec(self.nodes@, control_id),
    {
        let mut current = self.nodes[control_id].parent;
        let mut fuel: usize = self.nodes.len();
        while fuel > 0
            invariant
                self.wf(),
                form_owner_spec(self.nodes@, control_id) == ancestor_form(self.nodes@, current, fuel as nat),
                current matches Some(p) ==> p < self.nodes@.len(),
            decreases fuel,
        {
            match current {
                None => {
                    return None;
                },
                Some(p) => {
                    if self.nodes[p].is_element_with_tag_name("form") {
                        return Some(p);
                    }
                    proof {
                        assert(crate::dom::links_below(self.nodes@[p as int], self.nodes@.len()));
                    }
                    current = self.nodes[p].parent;
                    fuel = fuel - 1;
                },
            }
        }
        None
    }

    /// Records which form owns control `control_id` (its nearest `<form>`
    /// ancestor), or that none does.
    pub fn reset_form_owner(&mut self, control_id: usize)
        requires
            old(self).wf(),
            control_id < old(self).nodes@.len(),
        ensures
            final(self).wf(),
            final(self).nodes == old(self).nodes,
            final(self).controls_to_form@ == match form_owner_spec(old(self).nodes@, control_id) {
                Some(f) => old(self).controls_to_form@.insert(control_id, f),
                None => old(self).controls_to_form@.remove(control_id),
            },
            final(self).open_select_id == old(self).open_select_id,
            final(self).changed_nodes == old(self).changed_nodes,
            final(self).redraw_requested == old(self).redraw_requested,
            final(self).focus_node_id == old(self).focus_node_id,
    {
        let owner = self.form_owner(control_id);
        match owner {
            Some(f) => {
                self.controls_to_form.insert(control_id, f);
            },
            None => {
                self.controls_to_form.remove(&control_id);
            },
        }
    }

    /// The name/value pairs that control `control_id` submits.
    pub fn form_event_values(&self, control_id: usize) -> (res: Vec<(String, String)>)
        requires
            self.wf(),
            control_id < self.nodes@.len(),
        ensures
            res@.len() == form_event_values_spec(self.nodes@, control_id).len(),
            forall|j: int|
                0 <= j < res@.len() ==> (#[trigger] res@[j]).0@ == form_event_values_spec(self.nodes@, control_id)[j].0
                    && res@[j].1@ == form_event_values_spec(self.nodes@, control_id)[j].1,
    {
        let node = &self.nodes[control_id];
        let name = match node.attr("name") {
            Some(n) => n,
            None => {
                return Vec::new();
            },
        };
        if name.unicode_len() == 0 || !node.is_element_with_tag_name("select") {
            return Vec::new();
        }
        let values = self.select_form_values(control_id);
        let ghost spec_values = form_values_spec(self.nodes@, control_id);
        let mut res: Vec<(String, String)> = Vec::new();
        let mut k: usize = 0;
        while k < values.len()
            invariant
                k <= values@.len(),
                values@.len() == spec_values.len(),
                forall|j: int| 0 <= j < values@.len() ==> (#[trigger] values@[j]).0@ == spec_values[j].0,
                res@.len() == k,
                forall|j: int| 0 <= j < k ==> (#[trigger] res@[j]).0@ == name@ && res@[j].1@ == spec_values[j].0,
            decreases values@.len() - k,
        {
            res.push((name.clone(), values[k].0.clone()));
            k = k + 1;
        }
        res
    }
}

} // verus!
