//! Laws of the structure: properties that hold of every state and
//! every sequence of operations, stated over the model and proved
//! once.

use vstd::prelude::*;

use crate::model::after_union;
use crate::model::all_resolve;
use crate::model::compressed;
use crate::model::fresh_parents;
use crate::model::in_range;
use crate::model::lemma_after_union_roots;
use crate::model::lemma_compressed_preserves;
use crate::model::lemma_push_child;
use crate::model::lemma_push_keeps;
use crate::model::lemma_push_new_root;
use crate::model::lemma_root_from_walk;
use crate::model::lemma_root_terminal;
use crate::model::lemma_walk_absorb;
use crate::model::on_path;
use crate::model::resolves;
use crate::model::root_of;
use crate::model::terminal;
use crate::model::walk;

verus! {

/// A freshly constructed structure of `n` elements has exactly `n`
/// elements, each its own root.
pub proof fn lemma_fresh_all_roots(n: nat)
    requires
        n <= usize::MAX,
    ensures
        fresh_parents(n).len() == n,
        all_resolve(fresh_parents(n)),
        forall|i: int|
            0 <= i < n ==> resolves(fresh_parents(n), i) && root_of(fresh_parents(n), i) == i,
{
    let s = fresh_parents(n);
    assert forall|i: int| 0 <= i < n implies resolves(s, i) && root_of(s, i) == i by {
        assert(s[i] == i as usize);
        assert(terminal(s, i));
        lemma_root_from_walk(s, i, 0);
    }
}

/// A compressing lookup is idempotent: looking the same index up
/// again returns the same root, and the second lookup rewrites
/// nothing (the chain already has length one).
pub proof fn lemma_find_idempotent(s: Seq<usize>, i: int)
    requires
        resolves(s, i),
    ensures
        resolves(compressed(s, i), i),
        root_of(compressed(s, i), i) == root_of(s, i),
        compressed(compressed(s, i), i) == compressed(s, i),
{
    lemma_compressed_preserves(s, i);
    let s2 = compressed(s, i);
    let r = root_of(s, i);
    lemma_root_terminal(s, i);
    assert(!on_path(s, i, r));
    assert(s2[r] == s[r]);
    if i == r {
        assert forall|j: int| 0 <= j < s2.len() implies compressed(s2, i)[j] == s2[j] by {
            if on_path(s2, i, j) {
                let m: nat = choose|m: nat| walk(s2, i, m) == j;
                lemma_walk_absorb(s2, i, m);
            }
        }
        assert(compressed(s2, i) =~= s2);
    } else {
        assert(!terminal(s, i)) by {
            if terminal(s, i) {
                lemma_root_from_walk(s, i, 0);
            }
        }
        assert(walk(s, i, 0) == i);
        assert(on_path(s, i, i));
        assert(s2[i] == r as usize);
        assert(!terminal(s2, i));
        assert(walk(s2, i, 1) == walk(s2, s2[i] as int, 0));
        lemma_root_from_walk(s2, i, 1);
        assert forall|j: int| 0 <= j < s2.len() implies compressed(s2, i)[j] == s2[j] by {
            if on_path(s2, i, j) {
                let m: nat = choose|m: nat| walk(s2, i, m) == j;
                if m == 0 {
                    assert(j == i);
                    assert(root_of(s2, i) == r);
                } else {
                    assert(walk(s2, i, m) == walk(s2, s2[i] as int, (m - 1) as nat));
                    lemma_walk_absorb(s2, r, (m - 1) as nat);
                    assert(j == r);
                }
            }
        }
        assert(compressed(s2, i) =~= s2);
    }
}

/// After a union of `a` and `b`, `a` and `b` have the same root — the
/// old root of `a`, since union is left-biased.
pub proof fn lemma_union_joins(s: Seq<usize>, a: int, b: int)
    requires
        resolves(s, a),
        resolves(s, b),
    ensures
        resolves(after_union(s, a, b), a),
        resolves(after_union(s, a, b), b),
        root_of(after_union(s, a, b), a) == root_of(s, a),
        root_of(after_union(s, a, b), b) == root_of(s, a),
{
    lemma_after_union_roots(s, a, b);
}

/// Two elements with equal roots keep equal roots under any further
/// union.
pub proof fn lemma_union_preserves_equality(s: Seq<usize>, a: int, b: int, c: int, d: int)
    requires
        resolves(s, a),
        resolves(s, b),
        resolves(s, c),
        resolves(s, d),
        root_of(s, a) == root_of(s, b),
    ensures
        root_of(after_union(s, c, d), a) == root_of(after_union(s, c, d), b),
{
    lemma_after_union_roots(s, c, d);
}

/// Transitivity: after `union(a, b)` and then `union(b, c)`, the
/// elements `a`, `b` and `c` all share one root.
pub proof fn lemma_union_transitive(s: Seq<usize>, a: int, b: int, c: int)
    requires
        resolves(s, a),
        resolves(s, b),
        resolves(s, c),
    ensures
        root_of(after_union(after_union(s, a, b), b, c), a) == root_of(
            after_union(after_union(s, a, b), b, c),
            b,
        ),
        root_of(after_union(after_union(s, a, b), b, c), b) == root_of(
            after_union(after_union(s, a, b), b, c),
            c,
        ),
{
    lemma_after_union_roots(s, a, b);
    let s1 = after_union(s, a, b);
    assert(resolves(s1, a) && resolves(s1, b) && resolves(s1, c));
    assert(root_of(s1, a) == root_of(s, a) && root_of(s1, b) == root_of(s, a));
    lemma_after_union_roots(s1, b, c);
}

/// Growth without a parent: the structure gains one element, which is
/// its own root, and no existing element's root moves.
pub proof fn lemma_add_fresh_root(s: Seq<usize>)
    requires
        s.len() <= usize::MAX,
    ensures
        s.push(s.len() as usize).len() == s.len() + 1,
        resolves(s.push(s.len() as usize), s.len() as int),
        root_of(s.push(s.len() as usize), s.len() as int) == s.len(),
        forall|k: int|
            resolves(s, k) ==> resolves(s.push(s.len() as usize), k) && root_of(
                s.push(s.len() as usize),
                k,
            ) == root_of(s, k),
{
    lemma_push_new_root(s);
    lemma_push_keeps(s, s.len() as usize);
}

/// Growth under an existing root `p`: the structure gains one
/// element whose root is `p`, `p` stays a root, and no existing
/// element's root moves.
pub proof fn lemma_add_under_root(s: Seq<usize>, p: usize)
    requires
        in_range(s, p as int),
        s[p as int] == p,
    ensures
        s.push(p).len() == s.len() + 1,
        resolves(s.push(p), s.len() as int),
        root_of(s.push(p), s.len() as int) == p,
        root_of(s.push(p), p as int) == p,
        forall|k: int|
            resolves(s, k) ==> resolves(s.push(p), k) && root_of(s.push(p), k) == root_of(s, k),
{
    lemma_push_child(s, p);
    lemma_push_keeps(s, p);
}

} // verus!

