//! The hierarchy of groups, as the map from each group to its parent.
use vstd::prelude::*;

use crate::ids::GroupId;

verus! {

/// Each group with its parent; the root has none.
pub type Tree = Map<GroupId, Option<GroupId>>;

/// The group `n` steps above `g`, where that many steps can be taken.
pub open spec fn ancestor(t: Tree, g: GroupId, n: nat) -> Option<GroupId>
    decreases n,
{
    if n == 0 {
        Some(g)
    } else {
        match ancestor(t, g, (n - 1) as nat) {
            Some(a) => if t.contains_key(a) {
                t[a]
            } else {
                None
            },
            None => None,
        }
    }
}

/// `g` is `top` or lies somewhere below it.
pub open spec fn within(t: Tree, g: GroupId, top: GroupId) -> bool {
    exists|n: nat| ancestor(t, g, n) == Some(top)
}

/// `g` is one of `tops` or lies somewhere below one of them.
pub open spec fn within_any(t: Tree, g: GroupId, tops: Set<GroupId>) -> bool {
    exists|top: GroupId| tops.contains(top) && #[trigger] within(t, g, top)
}

/// Every group but the root has a parent in the tree, and climbing from any group ends at the
/// root.
pub open spec fn rooted(t: Tree, root: GroupId) -> bool {
    &&& t.contains_key(root)
    &&& t[root] is None
    &&& forall|g: GroupId| #[trigger] t.contains_key(g) && g != root ==> t[g] is Some && t.contains_key(t[g]->0)
    &&& forall|g: GroupId| #[trigger] t.contains_key(g) ==> within(t, g, root)
}

/// The tree without the groups within any of `tops`.
pub open spec fn cut(t: Tree, tops: Set<GroupId>) -> Tree {
    t.remove_keys(Set::new(|g: GroupId| within_any(t, g, tops)))
}

/// Climbing `m` and then `n` steps is climbing `m + n` steps.
pub proof fn lemma_ancestor_add(t: Tree, g: GroupId, m: nat, n: nat)
    ensures
        ancestor(t, g, m + n) == (match ancestor(t, g, m) {
            Some(a) => ancestor(t, a, n),
            None => None,
        }),
    decreases n,
{
    if n > 0 {
        lemma_ancestor_add(t, g, m, (n - 1) as nat);
        assert(m + n - 1 == m + (n - 1));
    }
}

/// The first step of a climb.
pub proof fn lemma_ancestor_first(t: Tree, g: GroupId, n: nat)
    requires
        n > 0,
    ensures
        ancestor(t, g, n) == (if t.contains_key(g) && t[g] is Some {
            ancestor(t, t[g]->0, (n - 1) as nat)
        } else {
            None
        }),
{
    lemma_ancestor_add(t, g, 1, (n - 1) as nat);
    assert(ancestor(t, g, 1) == (if t.contains_key(g) {
        t[g]
    } else {
        None
    })) by {
        reveal_with_fuel(ancestor, 2);
    }
    assert(1 + (n - 1) == n);
}

/// A group that is passed on the way up from a group of a rooted tree stands in the tree.
pub proof fn lemma_ancestor_in_tree(t: Tree, root: GroupId, g: GroupId, n: nat)
    requires
        rooted(t, root),
        t.contains_key(g),
        ancestor(t, g, n) is Some,
    ensures
        t.contains_key(ancestor(t, g, n)->0),
    decreases n,
{
    if n > 0 {
        lemma_ancestor_in_tree(t, root, g, (n - 1) as nat);
    }
}

/// Climbing the same number of steps in two trees that agree on what is passed.
pub proof fn lemma_ancestor_agree(t: Tree, u: Tree, g: GroupId, n: nat)
    requires
        forall|k: nat| k < n && ancestor(t, g, k) is Some ==> {
            let a = (#[trigger] ancestor(t, g, k))->0;
            t.contains_key(a) == u.contains_key(a) && (t.contains_key(a) ==> t[a] == u[a])
        },
    ensures
        ancestor(u, g, n) == ancestor(t, g, n),
    decreases n,
{
    if n > 0 {
        lemma_ancestor_agree(t, u, g, (n - 1) as nat);
        assert(ancestor(t, g, (n - 1) as nat) is Some ==> {
            let a = ancestor(t, g, (n - 1) as nat)->0;
            t.contains_key(a) == u.contains_key(a)
        });
    }
}

/// No group of a rooted tree lies above itself.
pub proof fn lemma_acyclic(t: Tree, root: GroupId, g: GroupId, n: nat)
    requires
        rooted(t, root),
        t.contains_key(g),
        n > 0,
    ensures
        ancestor(t, g, n) != Some(g),
{
    if ancestor(t, g, n) == Some(g) {
        let d = choose|d: nat| ancestor(t, g, d) == Some(root);
        lemma_loop_never_ends(t, g, n, d);
        // After d steps the climb stands at the root, and one more step is impossible.
        lemma_ancestor_add(t, g, d, 1);
        assert(ancestor(t, root, 1) is None) by {
            reveal_with_fuel(ancestor, 2);
        }
        assert(ancestor(t, g, d + 1) is None);
        lemma_loop_never_ends(t, g, n, d + 1);
    }
}

/// Where a climb comes back to its start, it can be continued for ever.
pub proof fn lemma_loop_never_ends(t: Tree, g: GroupId, n: nat, d: nat)
    requires
        n > 0,
        ancestor(t, g, n) == Some(g),
    ensures
        ancestor(t, g, d) is Some,
    decreases d,
{
    if d <= n {
        if ancestor(t, g, d) is None {
            lemma_ancestor_add(t, g, d, (n - d) as nat);
        }
    } else {
        lemma_loop_never_ends(t, g, n, (d - n) as nat);
        lemma_ancestor_add(t, g, n, (d - n) as nat);
    }
}

/// What lies within a group that lies within `top` lies within `top`.
pub proof fn lemma_within_trans(t: Tree, a: GroupId, b: GroupId, top: GroupId)
    requires
        within(t, a, b),
        within(t, b, top),
    ensures
        within(t, a, top),
{
    let m = choose|m: nat| ancestor(t, a, m) == Some(b);
    let n = choose|n: nat| ancestor(t, b, n) == Some(top);
    lemma_ancestor_add(t, a, m, n);
}

/// A group is within itself.
pub proof fn lemma_within_self(t: Tree, g: GroupId)
    ensures
        within(t, g, g),
{
    assert(ancestor(t, g, 0) == Some(g));
}

/// A group is within `top` exactly if it is `top` or its parent is within `top`.
pub proof fn lemma_within_step(t: Tree, g: GroupId, top: GroupId)
    ensures
        within(t, g, top) <==> g == top || (t.contains_key(g) && t[g] is Some && within(t, t[g]->0, top)),
{
    lemma_within_self(t, g);
    if within(t, g, top) && g != top {
        let n = choose|n: nat| ancestor(t, g, n) == Some(top);
        if n > 0 {
            lemma_ancestor_first(t, g, n);
        }
    }
    if t.contains_key(g) && t[g] is Some && within(t, t[g]->0, top) {
        let n = choose|n: nat| ancestor(t, t[g]->0, n) == Some(top);
        lemma_ancestor_first(t, g, n + 1);
        assert(ancestor(t, g, n + 1) == Some(top));
    }
}

/// Adding a new group below an existing one.
pub proof fn lemma_add_leaf(t: Tree, root: GroupId, g: GroupId, p: GroupId)
    requires
        rooted(t, root),
        !t.contains_key(g),
        t.contains_key(p),
    ensures
        rooted(t.insert(g, Some(p)), root),
        forall|x: GroupId, n: nat| t.contains_key(x) ==> #[trigger] ancestor(t.insert(g, Some(p)), x, n) == ancestor(t, x, n),
{
    let u = t.insert(g, Some(p));
    assert forall|x: GroupId, n: nat| t.contains_key(x) implies #[trigger] ancestor(u, x, n) == ancestor(t, x, n) by {
        assert forall|k: nat| k < n && ancestor(t, x, k) is Some implies {
            let a = (#[trigger] ancestor(t, x, k))->0;
            t.contains_key(a) == u.contains_key(a) && (t.contains_key(a) ==> t[a] == u[a])
        } by {
            lemma_ancestor_in_tree(t, root, x, k);
        }
        lemma_ancestor_agree(t, u, x, n);
    }
    assert forall|x: GroupId| #[trigger] u.contains_key(x) implies within(u, x, root) by {
        if x == g {
            assert(within(t, p, root));
            let n = choose|n: nat| ancestor(t, p, n) == Some(root);
            assert(ancestor(u, p, n) == Some(root));
            lemma_within_step(u, g, root);
        } else {
            assert(within(t, x, root));
            let n = choose|n: nat| ancestor(t, x, n) == Some(root);
            assert(ancestor(u, x, n) == Some(root));
        }
    }
}

/// Hanging a group that is not the root below a group outside its own subtree.
pub proof fn lemma_reparent(t: Tree, root: GroupId, g: GroupId, p: GroupId)
    requires
        rooted(t, root),
        t.contains_key(g),
        g != root,
        t.contains_key(p),
        !within(t, p, g),
    ensures
        rooted(t.insert(g, Some(p)), root),
{
    let u = t.insert(g, Some(p));
    // What is not within g climbs as before.
    assert forall|x: GroupId, n: nat| t.contains_key(x) && !within(t, x, g) implies #[trigger] ancestor(u, x, n)
        == ancestor(t, x, n) by {
        assert forall|k: nat| k < n && ancestor(t, x, k) is Some implies {
            let a = (#[trigger] ancestor(t, x, k))->0;
            t.contains_key(a) == u.contains_key(a) && (t.contains_key(a) ==> t[a] == u[a])
        } by {
            let a = ancestor(t, x, k)->0;
            if a == g {
                assert(within(t, x, g));
            }
        }
        lemma_ancestor_agree(t, u, x, n);
    }
    let dp = choose|n: nat| ancestor(t, p, n) == Some(root);
    assert(within(t, p, root));
    assert(ancestor(u, p, dp) == Some(root));
    assert(within(u, p, root));
    lemma_within_step(u, g, root);
    assert(within(u, g, root));
    assert forall|x: GroupId| #[trigger] u.contains_key(x) implies within(u, x, root) by {
        if within(t, x, g) {
            let n = choose|n: nat| ancestor(t, x, n) == Some(g);
            lemma_reaches(t, u, root, g, x, n);
            lemma_within_trans(u, x, g, root);
        } else {
            assert(within(t, x, root));
            let n = choose|n: nat| ancestor(t, x, n) == Some(root);
            assert(ancestor(u, x, n) == Some(root));
        }
    }
}

/// A climb to `g` does not use the parent of `g`.
proof fn lemma_reaches(t: Tree, u: Tree, root: GroupId, g: GroupId, x: GroupId, n: nat)
    requires
        rooted(t, root),
        t.contains_key(x),
        ancestor(t, x, n) == Some(g),
        forall|a: GroupId| a != g ==> t.contains_key(a) == u.contains_key(a) && (t.contains_key(a) ==> #[trigger] t[a] == u[a]),
    ensures
        within(u, x, g),
{
    assert forall|k: nat| k < n && ancestor(t, x, k) is Some implies {
        let a = (#[trigger] ancestor(t, x, k))->0;
        t.contains_key(a) == u.contains_key(a) && (t.contains_key(a) ==> t[a] == u[a])
    } by {
        let a = ancestor(t, x, k)->0;
        if a == g {
            lemma_ancestor_add(t, x, k, (n - k) as nat);
            lemma_ancestor_in_tree(t, root, x, k);
            lemma_acyclic(t, root, g, (n - k) as nat);
        }
    }
    lemma_ancestor_agree(t, u, x, n);
}

/// Cutting subtrees off, but not the whole tree.
pub proof fn lemma_cut(t: Tree, root: GroupId, tops: Set<GroupId>)
    requires
        rooted(t, root),
        !tops.contains(root),
    ensures
        rooted(cut(t, tops), root),
        forall|g: GroupId, n: nat| cut(t, tops).contains_key(g) ==> #[trigger] ancestor(cut(t, tops), g, n) == ancestor(t, g, n),
        forall|g: GroupId, top: GroupId| cut(t, tops).contains_key(g) ==> (#[trigger] within(cut(t, tops), g, top) <==> within(t, g, top)),
{
    let u = cut(t, tops);
    assert forall|top: GroupId| tops.contains(top) implies !#[trigger] within(t, root, top) by {
        lemma_within_step(t, root, top);
    }
    assert forall|g: GroupId, n: nat| u.contains_key(g) implies #[trigger] ancestor(u, g, n) == ancestor(t, g, n) by {
        assert forall|k: nat| k < n && ancestor(t, g, k) is Some implies {
            let a = (#[trigger] ancestor(t, g, k))->0;
            t.contains_key(a) == u.contains_key(a) && (t.contains_key(a) ==> t[a] == u[a])
        } by {
            let a = ancestor(t, g, k)->0;
            lemma_ancestor_in_tree(t, root, g, k);
            if within_any(t, a, tops) {
                let top = choose|top: GroupId| tops.contains(top) && #[trigger] within(t, a, top);
                assert(within(t, g, a));
                lemma_within_trans(t, g, a, top);
                assert(within_any(t, g, tops));
            }
        }
        lemma_ancestor_agree(t, u, g, n);
    }
    assert forall|g: GroupId, top: GroupId| u.contains_key(g) implies (#[trigger] within(u, g, top) <==> within(t, g, top)) by {
        if within(u, g, top) {
            let n = choose|n: nat| ancestor(u, g, n) == Some(top);
            assert(ancestor(t, g, n) == Some(top));
        }
        if within(t, g, top) {
            let n = choose|n: nat| ancestor(t, g, n) == Some(top);
            assert(ancestor(u, g, n) == Some(top));
        }
    }
    assert forall|g: GroupId| #[trigger] u.contains_key(g) && g != root implies u[g] is Some && u.contains_key(u[g]->0) by {
        let p = t[g]->0;
        if within_any(t, p, tops) {
            let top = choose|top: GroupId| tops.contains(top) && #[trigger] within(t, p, top);
            lemma_within_step(t, g, top);
            assert(within_any(t, g, tops));
        }
    }
    assert forall|g: GroupId| #[trigger] u.contains_key(g) implies within(u, g, root) by {
        assert(within(t, g, root));
    }
}

} // verus!
