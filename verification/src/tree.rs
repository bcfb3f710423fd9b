//! The tree shape of a document: parent links, depths, and why a walk down
//! from any node meets each node at most once.

use vstd::prelude::*;

use crate::dom::{DomNode, links_below, preorder, preorder_list};

verus! {

/// The node `k` parent steps above node `i` (`None` past a root).
pub open spec fn ancestor(nodes: Seq<DomNode>, i: usize, k: nat) -> Option<usize>
    decreases k,
{
    if k == 0 {
        Some(i)
    } else {
        match ancestor(nodes, i, (k - 1) as nat) {
            Some(a) => if a < nodes.len() {
                nodes[a as int].parent
            } else {
                None
            },
            None => None,
        }
    }
}

/// Whether node `i` lies `k` parent steps below a root (a node with no parent).
pub open spec fn at_depth(nodes: Seq<DomNode>, i: usize, k: nat) -> bool {
    ancestor(nodes, i, k) matches Some(r) && r < nodes.len() && nodes[r as int].parent is None
}

/// Whether the parent links of node `i` end at a root.
pub open spec fn has_depth(nodes: Seq<DomNode>, i: usize) -> bool {
    exists|k: nat| #[trigger] at_depth(nodes, i, k)
}

/// Whether node `x` is node `id` or lies below it.
pub open spec fn descends(nodes: Seq<DomNode>, x: usize, id: usize) -> bool {
    exists|d: nat| #[trigger] ancestor(nodes, x, d) == Some(id)
}

/// Whether the nodes form a forest: each child names its parent back, no
/// node lists a child twice, and the parent links of every node end at a root.
pub closed spec fn forest(nodes: Seq<DomNode>) -> bool {
    &&& forall|i: int, j: int|
        0 <= i < nodes.len() && 0 <= j < nodes[i].children@.len() && (#[trigger] nodes[i].children@[j])
            < nodes.len() ==> nodes[nodes[i].children@[j] as int].parent == Some(i as usize)
    &&& forall|i: int| 0 <= i < nodes.len() ==> (#[trigger] nodes[i]).children@.no_duplicates()
    &&& forall|i: usize| i < nodes.len() ==> #[trigger] has_depth(nodes, i)
}

proof fn lemma_ancestor_compose(nodes: Seq<DomNode>, x: usize, d: nat, a: usize, m: nat)
    requires
        ancestor(nodes, x, d) == Some(a),
    ensures
        ancestor(nodes, x, d + m) == ancestor(nodes, a, m),
    decreases m,
{
    if m > 0 {
        lemma_ancestor_compose(nodes, x, d, a, (m - 1) as nat);
        assert((d + m - 1) as nat == d + (m - 1) as nat);
    }
}

proof fn lemma_past_root(nodes: Seq<DomNode>, x: usize, k: nat, m: nat)
    requires
        at_depth(nodes, x, k),
        m > 0,
    ensures
        ancestor(nodes, x, k + m) is None,
    decreases m,
{
    if m > 1 {
        lemma_past_root(nodes, x, k, (m - 1) as nat);
        assert((k + m - 1) as nat == k + (m - 1) as nat);
    }
}

proof fn lemma_depth_unique(nodes: Seq<DomNode>, x: usize, k1: nat, k2: nat)
    requires
        at_depth(nodes, x, k1),
        at_depth(nodes, x, k2),
    ensures
        k1 == k2,
{
    if k1 < k2 {
        lemma_past_root(nodes, x, k1, (k2 - k1) as nat);
    } else if k2 < k1 {
        lemma_past_root(nodes, x, k2, (k1 - k2) as nat);
    }
}

proof fn lemma_depth_below(nodes: Seq<DomNode>, x: usize, d: nat, a: usize, k: nat)
    requires
        ancestor(nodes, x, d) == Some(a),
        at_depth(nodes, a, k),
    ensures
        at_depth(nodes, x, d + k),
{
    lemma_ancestor_compose(nodes, x, d, a, k);
}

/// Two nodes with the same parent lie at the same depth.
proof fn lemma_sibling_depth(nodes: Seq<DomNode>, a: usize, b: usize, q: usize, ka: nat, kb: nat)
    requires
        a < nodes.len(),
        b < nodes.len(),
        nodes[a as int].parent == Some(q),
        nodes[b as int].parent == Some(q),
        at_depth(nodes, a, ka),
        at_depth(nodes, b, kb),
    ensures
        ka == kb,
{
    assert(ancestor(nodes, a, 1) == Some(q));
    assert(ancestor(nodes, b, 1) == Some(q));
    if ka == 0 || kb == 0 {
        assert(ancestor(nodes, a, 0) == Some(a));
        assert(ancestor(nodes, b, 0) == Some(b));
    } else {
        lemma_ancestor_compose(nodes, a, 1, q, (ka - 1) as nat);
        lemma_ancestor_compose(nodes, b, 1, q, (kb - 1) as nat);
        assert(1 + (ka - 1) as nat == ka);
        assert(1 + (kb - 1) as nat == kb);
        lemma_depth_unique(nodes, q, (ka - 1) as nat, (kb - 1) as nat);
    }
}

proof fn lemma_preorder_descends(nodes: Seq<DomNode>, id: usize, fuel: nat)
    requires
        forest(nodes),
    ensures
        forall|x: usize| #[trigger] preorder(nodes, id, fuel).contains(x) ==> id < nodes.len() && descends(nodes, x, id),
    decreases fuel, 0nat,
{
    if fuel > 0 && id < nodes.len() {
        let ch = nodes[id as int].children@;
        let rest = preorder_list(nodes, ch, (fuel - 1) as nat);
        let all = preorder(nodes, id, fuel);
        lemma_preorder_list_descends(nodes, ch, (fuel - 1) as nat);
        assert forall|x: usize| #[trigger] all.contains(x) implies id < nodes.len() && descends(nodes, x, id) by {
            if x == id {
                assert(ancestor(nodes, x, 0) == Some(id));
            } else {
                let w = choose|w: int| 0 <= w < all.len() && all[w] == x;
                assert(all[w] == rest[w - 1]);
                assert(rest.contains(x));
                let k = choose|k: int| 0 <= k < ch.len() && #[trigger] ch[k] < nodes.len() && descends(nodes, x, ch[k]);
                let c = ch[k];
                let d = choose|d: nat| #[trigger] ancestor(nodes, x, d) == Some(c);
                assert(nodes[c as int].parent == Some(id));
                lemma_ancestor_compose(nodes, x, d, c, 1);
                assert(ancestor(nodes, x, d + 1) == Some(id));
            }
        }
    }
}

proof fn lemma_preorder_list_descends(nodes: Seq<DomNode>, ids: Seq<usize>, fuel: nat)
    requires
        forest(nodes),
    ensures
        forall|x: usize|
            #[trigger] preorder_list(nodes, ids, fuel).contains(x) ==> exists|k: int|
                0 <= k < ids.len() && #[trigger] ids[k] < nodes.len() && descends(nodes, x, ids[k]),
    decreases fuel, ids.len(),
{
    if ids.len() > 0 {
        let a = preorder(nodes, ids[0], fuel);
        let rest = ids.drop_first();
        let b = preorder_list(nodes, rest, fuel);
        let all = preorder_list(nodes, ids, fuel);
        lemma_preorder_descends(nodes, ids[0], fuel);
        lemma_preorder_list_descends(nodes, rest, fuel);
        assert forall|x: usize| #[trigger] all.contains(x) implies exists|k: int|
            0 <= k < ids.len() && #[trigger] ids[k] < nodes.len() && descends(nodes, x, ids[k]) by {
            let w = choose|w: int| 0 <= w < all.len() && all[w] == x;
            if w < a.len() {
                assert(a[w] == x);
                assert(a.contains(x));
                assert(ids[0] < nodes.len() && descends(nodes, x, ids[0]));
            } else {
                assert(b[w - a.len()] == x);
                assert(b.contains(x));
                let k = choose|k: int| 0 <= k < rest.len() && #[trigger] rest[k] < nodes.len() && descends(nodes, x, rest[k]);
                assert(ids[k + 1] == rest[k]);
            }
        }
    }
}

proof fn lemma_preorder_nodup(nodes: Seq<DomNode>, id: usize, fuel: nat)
    requires
        forest(nodes),
    ensures
        preorder(nodes, id, fuel).no_duplicates(),
    decreases fuel, 0nat,
{
    if fuel > 0 && id < nodes.len() {
        let ch = nodes[id as int].children@;
        let rest = preorder_list(nodes, ch, (fuel - 1) as nat);
        let all = preorder(nodes, id, fuel);
        assert(ch.no_duplicates());
        assert forall|k: int| 0 <= k < ch.len() && #[trigger] ch[k] < nodes.len() implies nodes[ch[k] as int].parent == Some(id) by {
        }
        lemma_preorder_list_nodup(nodes, ch, id, (fuel - 1) as nat);
        lemma_preorder_list_descends(nodes, ch, (fuel - 1) as nat);
        if rest.contains(id) {
            let k = choose|k: int| 0 <= k < ch.len() && #[trigger] ch[k] < nodes.len() && descends(nodes, id, ch[k]);
            let c = ch[k];
            let d = choose|d: nat| #[trigger] ancestor(nodes, id, d) == Some(c);
            assert(has_depth(nodes, id));
            let kid = choose|kk: nat| #[trigger] at_depth(nodes, id, kk);
            assert(nodes[c as int].parent == Some(id));
            assert(ancestor(nodes, c, 0) == Some(c));
            assert(ancestor(nodes, c, 1) == Some(id));
            lemma_depth_below(nodes, c, 1, id, kid);
            lemma_depth_below(nodes, id, d, c, 1 + kid);
            lemma_depth_unique(nodes, id, kid, d + (1 + kid));
        }
        assert forall|i: int, j: int| 0 <= i < all.len() && 0 <= j < all.len() && i != j implies all[i] != all[j] by {
            if i > 0 && j > 0 {
                assert(all[i] == rest[i - 1] && all[j] == rest[j - 1]);
            } else if i == 0 {
                assert(all[j] == rest[j - 1]);
            } else {
                assert(all[i] == rest[i - 1]);
            }
        }
    }
}

proof fn lemma_preorder_list_nodup(nodes: Seq<DomNode>, ids: Seq<usize>, q: usize, fuel: nat)
    requires
        forest(nodes),
        ids.no_duplicates(),
        forall|k: int| 0 <= k < ids.len() && #[trigger] ids[k] < nodes.len() ==> nodes[ids[k] as int].parent == Some(q),
    ensures
        preorder_list(nodes, ids, fuel).no_duplicates(),
    decreases fuel, ids.len(),
{
    if ids.len() > 0 {
        let a = preorder(nodes, ids[0], fuel);
        let rest = ids.drop_first();
        let b = preorder_list(nodes, rest, fuel);
        let all = preorder_list(nodes, ids, fuel);
        assert forall|k: int| 0 <= k < rest.len() && #[trigger] rest[k] < nodes.len() implies nodes[rest[k] as int].parent
            == Some(q) by {
            assert(rest[k] == ids[k + 1]);
        }
        lemma_preorder_nodup(nodes, ids[0], fuel);
        lemma_preorder_list_nodup(nodes, rest, q, fuel);
        lemma_preorder_descends(nodes, ids[0], fuel);
        lemma_preorder_list_descends(nodes, rest, fuel);
        assert forall|x: usize| a.contains(x) implies !b.contains(x) by {
            if b.contains(x) {
                let k = choose|k: int| 0 <= k < rest.len() && #[trigger] rest[k] < nodes.len() && descends(nodes, x, rest[k]);
                let s = rest[k];
                let f = ids[0];
                assert(s == ids[k + 1]);
                assert(s != f);
                let d1 = choose|d: nat| #[trigger] ancestor(nodes, x, d) == Some(f);
                let d2 = choose|d: nat| #[trigger] ancestor(nodes, x, d) == Some(s);
                assert(has_depth(nodes, f) && has_depth(nodes, s));
                let kf = choose|kk: nat| #[trigger] at_depth(nodes, f, kk);
                let ks = choose|kk: nat| #[trigger] at_depth(nodes, s, kk);
                lemma_sibling_depth(nodes, f, s, q, kf, ks);
                lemma_depth_below(nodes, x, d1, f, kf);
                lemma_depth_below(nodes, x, d2, s, ks);
                lemma_depth_unique(nodes, x, d1 + kf, d2 + ks);
            }
        }
        assert forall|i: int, j: int| 0 <= i < all.len() && 0 <= j < all.len() && i != j implies all[i] != all[j] by {
            if i < a.len() && j < a.len() {
                assert(all[i] == a[i] && all[j] == a[j]);
            } else if i >= a.len() && j >= a.len() {
                assert(all[i] == b[i - a.len()] && all[j] == b[j - a.len()]);
            } else if i < a.len() {
                assert(all[i] == a[i] && all[j] == b[j - a.len()]);
                assert(a.contains(all[i]));
                assert(b.contains(all[j]));
            } else {
                assert(all[j] == a[j] && all[i] == b[i - a.len()]);
                assert(a.contains(all[j]));
                assert(b.contains(all[i]));
            }
        }
    }
}

/// In a forest, the walk down from any node meets each node at most once.
pub proof fn lemma_forest_preorder_nodup(nodes: Seq<DomNode>, id: usize, fuel: nat)
    requires
        forest(nodes),
    ensures
        preorder(nodes, id, fuel).no_duplicates(),
{
    lemma_preorder_nodup(nodes, id, fuel);
}

/// The empty sequence of nodes is a forest.
pub proof fn lemma_forest_empty()
    ensures
        forest(Seq::<DomNode>::empty()),
{
}

proof fn lemma_ancestor_push(nodes: Seq<DomNode>, node: DomNode, i: usize, k: nat)
    requires
        node.parent is None,
    ensures
        ancestor(nodes.push(node), i, k) == ancestor(nodes, i, k),
    decreases k,
{
    if k > 0 {
        lemma_ancestor_push(nodes, node, i, (k - 1) as nat);
        match ancestor(nodes, i, (k - 1) as nat) {
            Some(a) => {
                if a < nodes.len() {
                    assert(nodes.push(node)[a as int] == nodes[a as int]);
                }
            },
            None => {},
        }
    }
}

/// Adding a node with no parent and no children to a forest whose child
/// links name its nodes keeps it a forest.
pub proof fn lemma_forest_push(nodes: Seq<DomNode>, node: DomNode)
    requires
        forest(nodes),
        node.parent is None,
        node.children@.len() == 0,
        forall|i: int| 0 <= i < nodes.len() ==> links_below(#[trigger] nodes[i], nodes.len()),
    ensures
        forest(nodes.push(node)),
{
    let after = nodes.push(node);
    let n = nodes.len();
    assert forall|i: int, j: int|
        0 <= i < after.len() && 0 <= j < after[i].children@.len() && (#[trigger] after[i].children@[j])
            < after.len() implies after[after[i].children@[j] as int].parent == Some(i as usize) by {
        assert(i < n);
        assert(after[i] == nodes[i]);
        assert(links_below(nodes[i], n));
        assert(nodes[i].children@[j] < n);
    }
    assert forall|i: int| 0 <= i < after.len() implies (#[trigger] after[i]).children@.no_duplicates() by {
        if i < n {
            assert(after[i] == nodes[i]);
        }
    }
    assert forall|i: usize| i < after.len() implies #[trigger] has_depth(after, i) by {
        if i < n {
            assert(has_depth(nodes, i));
            let k = choose|k: nat| #[trigger] at_depth(nodes, i, k);
            lemma_ancestor_push(nodes, node, i, k);
            assert(at_depth(after, i, k));
        } else {
            assert(ancestor(after, i, 0) == Some(i));
            assert(at_depth(after, i, 0));
        }
    }
}

proof fn lemma_ancestor_same_links(a: Seq<DomNode>, b: Seq<DomNode>, i: usize, k: nat)
    requires
        a.len() == b.len(),
        forall|x: int| 0 <= x < a.len() ==> (#[trigger] a[x]).parent == b[x].parent,
    ensures
        ancestor(a, i, k) == ancestor(b, i, k),
    decreases k,
{
    if k > 0 {
        lemma_ancestor_same_links(a, b, i, (k - 1) as nat);
    }
}

/// Changing nodes without touching their parent and child links keeps a forest.
pub proof fn lemma_forest_same_links(a: Seq<DomNode>, b: Seq<DomNode>)
    requires
        forest(a),
        a.len() == b.len(),
        forall|x: int| 0 <= x < a.len() ==> (#[trigger] a[x]).parent == b[x].parent && a[x].children == b[x].children,
    ensures
        forest(b),
{
    assert forall|i: int, j: int|
        0 <= i < b.len() && 0 <= j < b[i].children@.len() && (#[trigger] b[i].children@[j]) < b.len() implies b[b[i].children@[j] as int].parent
            == Some(i as usize) by {
        assert(a[i].children == b[i].children);
        assert(a[i].children@[j] == b[i].children@[j]);
        assert(a[a[i].children@[j] as int].parent == b[b[i].children@[j] as int].parent);
    }
    assert forall|i: int| 0 <= i < b.len() implies (#[trigger] b[i]).children@.no_duplicates() by {
        assert(a[i].children == b[i].children);
    }
    assert forall|i: usize| i < b.len() implies #[trigger] has_depth(b, i) by {
        assert(has_depth(a, i));
        let k = choose|k: nat| #[trigger] at_depth(a, i, k);
        lemma_ancestor_same_links(a, b, i, k);
        assert(at_depth(b, i, k));
    }
}

proof fn lemma_ancestor_avoiding(old: Seq<DomNode>, new: Seq<DomNode>, c: usize, x: usize, k: nat)
    requires
        new.len() == old.len(),
        forall|i: int| 0 <= i < old.len() && i != c ==> (#[trigger] new[i]).parent == old[i].parent,
        forall|j: nat| j < k ==> #[trigger] ancestor(old, x, j) != Some(c),
    ensures
        ancestor(new, x, k) == ancestor(old, x, k),
    decreases k,
{
    if k > 0 {
        lemma_ancestor_avoiding(old, new, c, x, (k - 1) as nat);
        assert(ancestor(old, x, (k - 1) as nat) != Some(c));
    }
}

/// Hanging a root `c` of a forest below a node `p` outside its tree keeps it
/// a forest, and leaves the parent links above `p` as they were.
pub proof fn lemma_forest_append(old: Seq<DomNode>, new: Seq<DomNode>, p: usize, c: usize)
    requires
        forest(old),
        new.len() == old.len(),
        p < old.len(),
        c < old.len(),
        old[c as int].parent is None,
        forall|k: nat| #[trigger] ancestor(old, p, k) != Some(c),
        new[c as int].parent == Some(p),
        new[p as int].children@ == old[p as int].children@.push(c),
        forall|i: int| 0 <= i < old.len() && i != c ==> (#[trigger] new[i]).parent == old[i].parent,
        forall|i: int| 0 <= i < old.len() && i != p ==> (#[trigger] new[i]).children == old[i].children,
    ensures
        forest(new),
        forall|k: nat| #[trigger] ancestor(new, p, k) == ancestor(old, p, k),
{
    let n = old.len();
    assert(ancestor(old, p, 0) == Some(p));
    assert(c != p);
    assert forall|k: nat| #[trigger] ancestor(new, p, k) == ancestor(old, p, k) by {
        lemma_ancestor_avoiding(old, new, c, p, k);
    }
    assert forall|i: int, j: int|
        0 <= i < new.len() && 0 <= j < new[i].children@.len() && (#[trigger] new[i].children@[j]) < new.len() implies new[new[i].children@[j] as int].parent
            == Some(i as usize) by {
        let ch = new[i].children@[j];
        if i == p && j == old[p as int].children@.len() {
            assert(ch == c);
        } else {
            assert(old[i].children@[j] == ch);
            assert(old[ch as int].parent == Some(i as usize));
            assert(ch != c);
        }
    }
    assert forall|i: int| 0 <= i < new.len() implies (#[trigger] new[i]).children@.no_duplicates() by {
        assert(old[i].children@.no_duplicates());
        if i == p {
            let och = old[p as int].children@;
            assert forall|j: int| 0 <= j < och.len() implies #[trigger] och[j] != c by {
                if och[j] == c {
                    assert(old[c as int].parent == Some(p));
                }
            }
            assert forall|u: int, v: int| 0 <= u < v < new[i].children@.len() implies new[i].children@[u] != new[i].children@[v] by {
                if v == och.len() {
                    assert(och[u] != c);
                }
            }
        }
    }
    assert(has_depth(old, p));
    let kp = choose|k: nat| #[trigger] at_depth(old, p, k);
    assert(ancestor(new, p, kp) == ancestor(old, p, kp));
    assert(ancestor(old, p, kp) != Some(c));
    assert(at_depth(new, p, kp));
    assert forall|x: usize| x < new.len() implies #[trigger] has_depth(new, x) by {
        assert(has_depth(old, x));
        if exists|j: nat| #[trigger] ancestor(old, x, j) == Some(c) {
            let j = choose|j: nat| #[trigger] ancestor(old, x, j) == Some(c);
            assert forall|j2: nat| j2 < j implies #[trigger] ancestor(old, x, j2) != Some(c) by {
                if ancestor(old, x, j2) == Some(c) {
                    assert(ancestor(old, c, 0) == Some(c));
                    assert(at_depth(old, c, 0));
                    lemma_ancestor_compose(old, x, j2, c, (j - j2) as nat);
                    lemma_past_root(old, c, 0, (j - j2) as nat);
                    assert(j2 + (j - j2) as nat == j);
                }
            }
            lemma_ancestor_avoiding(old, new, c, x, j);
            assert(ancestor(new, x, j + 1) == Some(p));
            lemma_depth_below(new, x, j + 1, p, kp);
        } else {
            let k = choose|k: nat| #[trigger] at_depth(old, x, k);
            assert forall|j: nat| j < k implies #[trigger] ancestor(old, x, j) != Some(c) by {
            }
            lemma_ancestor_avoiding(old, new, c, x, k);
            assert(ancestor(old, x, k) != Some(c));
            assert(at_depth(new, x, k));
        }
    }
}

} // verus!
