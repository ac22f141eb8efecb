//! Mathematical model of a parent-pointer forest.
//!
//! The state of the structure is a sequence `s` of parent indices:
//! `s[i]` is the immediate parent of element `i`, and an element is a
//! root exactly when it is its own parent.  The model describes walking
//! the parent chain with a step budget (`walk`), what it means for a
//! chain to end (`terminal`, `reaches`), the root an element resolves
//! to (`root_of`, `resolves`), and the effect of full path compression
//! (`on_path`, `compressed`) and of a union (`after_union`).

use vstd::prelude::*;
use vstd::seq_lib::*;
use vstd::set_lib::*;

verus! {

/// `i` is a valid index into `s`.
pub open spec fn in_range(s: Seq<usize>, i: int) -> bool {
    0 <= i < s.len()
}

/// A parent-chain walk stops at `i`: either `i` is outside the
/// sequence, or `i` is a root (its own parent).
pub open spec fn terminal(s: Seq<usize>, i: int) -> bool {
    !in_range(s, i) || s[i] == i
}

/// The index reached from `i` after following parent pointers for at
/// most `fuel` steps, stopping early at a terminal index.
pub open spec fn walk(s: Seq<usize>, i: int, fuel: nat) -> int
    decreases fuel,
{
    if fuel == 0 || terminal(s, i) {
        i
    } else {
        walk(s, s[i] as int, (fuel - 1) as nat)
    }
}

/// The parent chain from `i` ends after finitely many steps (it does
/// not run around a cycle forever).
pub open spec fn reaches(s: Seq<usize>, i: int) -> bool {
    exists|m: nat| terminal(s, walk(s, i, m))
}

/// Where the parent chain from `i` ends.  Meaningful when
/// `reaches(s, i)` holds; an arbitrary index otherwise.
pub open spec fn root_of(s: Seq<usize>, i: int) -> int {
    walk(s, i, choose|m: nat| terminal(s, walk(s, i, m)))
}

/// The chain from `i` ends at a root inside the sequence: a lookup of
/// `i` succeeds.
pub open spec fn resolves(s: Seq<usize>, i: int) -> bool {
    &&& in_range(s, i)
    &&& reaches(s, i)
    &&& in_range(s, root_of(s, i))
}

/// Every element of `s` resolves to an in-range root.
pub open spec fn all_resolve(s: Seq<usize>) -> bool {
    forall|i: int| in_range(s, i) ==> resolves(s, i)
}

/// The parent sequence of a freshly constructed structure of `n`
/// elements: each element is its own root.
pub open spec fn fresh_parents(n: nat) -> Seq<usize> {
    Seq::new(n, |i: int| i as usize)
}

/// A terminal index absorbs any remaining fuel.
pub proof fn lemma_walk_absorb(s: Seq<usize>, i: int, m: nat)
    requires
        terminal(s, i),
    ensures
        walk(s, i, m) == i,
{
}

/// Splitting the fuel of a walk into two legs.
pub proof fn lemma_walk_add(s: Seq<usize>, i: int, m1: nat, m2: nat)
    ensures
        walk(s, i, m1 + m2) == walk(s, walk(s, i, m1), m2),
    decreases m1,
{
    if m1 == 0 {
    } else if terminal(s, i) {
        lemma_walk_absorb(s, i, m1 + m2);
        lemma_walk_absorb(s, i, m1);
        lemma_walk_absorb(s, i, m2);
    } else {
        lemma_walk_add(s, s[i] as int, (m1 - 1) as nat, m2);
    }
}

/// Once a walk has ended, more fuel does not move it.
pub proof fn lemma_walk_extend(s: Seq<usize>, i: int, m: nat, m2: nat)
    requires
        terminal(s, walk(s, i, m)),
        m <= m2,
    ensures
        walk(s, i, m2) == walk(s, i, m),
{
    lemma_walk_add(s, i, m, (m2 - m) as nat);
    lemma_walk_absorb(s, walk(s, i, m), (m2 - m) as nat);
}

/// Any fuel that ends the walk from `i` identifies the root of `i`.
pub proof fn lemma_root_from_walk(s: Seq<usize>, i: int, m: nat)
    requires
        terminal(s, walk(s, i, m)),
    ensures
        reaches(s, i),
        root_of(s, i) == walk(s, i, m),
        terminal(s, root_of(s, i)),
{
    let m0: nat = choose|mm: nat| terminal(s, walk(s, i, mm));
    if m0 <= m {
        lemma_walk_extend(s, i, m0, m);
    } else {
        lemma_walk_extend(s, i, m, m0);
    }
}

/// A non-terminal element ends its chain exactly where its parent
/// does.
pub proof fn lemma_step(s: Seq<usize>, i: int)
    requires
        !terminal(s, i),
    ensures
        reaches(s, i) <==> reaches(s, s[i] as int),
        reaches(s, i) ==> root_of(s, i) == root_of(s, s[i] as int),
{
    let j = s[i] as int;
    if reaches(s, i) {
        let m: nat = choose|m: nat| terminal(s, walk(s, i, m));
        assert(m != 0);
        assert(walk(s, i, m) == walk(s, j, (m - 1) as nat));
        lemma_root_from_walk(s, i, m);
        lemma_root_from_walk(s, j, (m - 1) as nat);
    }
    if reaches(s, j) {
        let m: nat = choose|m: nat| terminal(s, walk(s, j, m));
        assert(walk(s, i, m + 1) == walk(s, j, m));
        lemma_root_from_walk(s, i, m + 1);
    }
}

/// Every index visited along a chain that ends shares its end, and its
/// chain ends too.
pub proof fn lemma_reaches_to_walk(s: Seq<usize>, k: int, u: nat)
    requires
        reaches(s, k),
    ensures
        reaches(s, walk(s, k, u)),
        root_of(s, walk(s, k, u)) == root_of(s, k),
{
    let m: nat = choose|m: nat| terminal(s, walk(s, k, m));
    lemma_root_from_walk(s, k, m);
    if m <= u {
        lemma_walk_extend(s, k, m, u);
        lemma_root_from_walk(s, walk(s, k, u), 0);
    } else {
        lemma_walk_add(s, k, u, (m - u) as nat);
        lemma_root_from_walk(s, walk(s, k, u), (m - u) as nat);
    }
}

proof fn lemma_cycle_iter(s: Seq<usize>, x: int, p: nat, q: nat)
    requires
        walk(s, x, p) == x,
    ensures
        walk(s, x, (q * p) as nat) == x,
    decreases q,
{
    if q == 0 {
        assert(q * p == 0);
    } else {
        lemma_cycle_iter(s, x, p, (q - 1) as nat);
        assert(q * p == (q - 1) * p + p) by (nonlinear_arith);
        lemma_walk_add(s, x, ((q - 1) * p) as nat, p);
    }
}

/// A non-terminal element that a chain leads back to sits on a cycle:
/// its chain never ends.
pub proof fn lemma_cycle(s: Seq<usize>, x: int, p: nat)
    requires
        p > 0,
        walk(s, x, p) == x,
        !terminal(s, x),
    ensures
        !reaches(s, x),
{
    if reaches(s, x) {
        let m: nat = choose|m: nat| terminal(s, walk(s, x, m));
        assert(m != 0);
        lemma_cycle_iter(s, x, p, m);
        assert(m * p >= m) by (nonlinear_arith)
            requires
                p >= 1,
                m >= 0,
        ;
        lemma_walk_extend(s, x, m, (m * p) as nat);
        assert(terminal(s, x));
    }
}

/// Pigeonhole: more than `n` values drawn from `0..n` repeat.
pub proof fn lemma_pigeonhole(c: Seq<int>, n: int)
    requires
        0 <= n,
        c.len() > n,
        forall|u: int| 0 <= u < c.len() ==> 0 <= #[trigger] c[u] < n,
    ensures
        exists|u: int, v: int| 0 <= u < v < c.len() && c[u] == c[v],
{
    if !(exists|u: int, v: int| 0 <= u < v < c.len() && c[u] == c[v]) {
        assert(c.no_duplicates()) by {
            assert forall|u: int, v: int| 0 <= u < c.len() && 0 <= v < c.len() && u != v
                implies c[u] != c[v] by {
                if c[u] == c[v] {
                    if u < v {
                        assert(0 <= u < v < c.len() && c[u] == c[v]);
                    } else {
                        assert(0 <= v < u < c.len() && c[v] == c[u]);
                    }
                }
            }
        }
        c.unique_seq_to_set();
        lemma_int_range(0, n);
        assert(c.to_set().subset_of(set_int_range(0, n))) by {
            assert forall|x: int| c.to_set().contains(x)
                implies set_int_range(0, n).contains(x) by {
                let u: int = choose|u: int| 0 <= u < c.len() && c[u] == x;
                assert(0 <= c[u] < n);
            }
        }
        lemma_len_subset(c.to_set(), set_int_range(0, n));
        assert(false);
    }
}

/// `j` is a non-terminal index that the chain from `i` visits: one of
/// the indices that a compressing lookup of `i` rewrites.
pub open spec fn on_path(s: Seq<usize>, i: int, j: int) -> bool {
    !terminal(s, j) && exists|m: nat| walk(s, i, m) == j
}

/// The parent sequence after a compressing lookup of `i`: every index
/// the chain from `i` visits points directly at the root of `i`.
pub open spec fn compressed(s: Seq<usize>, i: int) -> Seq<usize> {
    Seq::new(s.len(), |j: int| if on_path(s, i, j) { root_of(s, i) as usize } else { s[j] })
}

proof fn lemma_compressed_walk(s: Seq<usize>, i: int, k: int, m: nat)
    requires
        resolves(s, i),
        terminal(s, walk(s, k, m)),
    ensures
        walk(compressed(s, i), k, m) == walk(s, k, m),
        terminal(compressed(s, i), walk(s, k, m)),
    decreases m,
{
    let s2 = compressed(s, i);
    let r = root_of(s, i);
    lemma_root_from_walk(s, i, choose|mm: nat| terminal(s, walk(s, i, mm)));
    if terminal(s, k) {
        assert(!on_path(s, k, k));
        assert(terminal(s2, k));
        lemma_walk_absorb(s2, k, m);
    } else if on_path(s, i, k) {
        let mk: nat = choose|mm: nat| walk(s, i, mm) == k;
        lemma_walk_add(s, i, mk, m);
        lemma_root_from_walk(s, i, mk + m);
        lemma_root_from_walk(s, k, m);
        assert(walk(s, k, m) == r);
        assert(s2[k] == r as usize);
        assert(m >= 1);
        assert(!terminal(s2, k));
        assert(!on_path(s, i, r));
        assert(s2[r] == s[r]);
        assert(terminal(s2, r));
        assert(walk(s2, k, m) == walk(s2, r, (m - 1) as nat));
        lemma_walk_absorb(s2, r, (m - 1) as nat);
    } else {
        assert(s2[k] == s[k]);
        assert(m >= 1);
        assert(walk(s, k, m) == walk(s, s[k] as int, (m - 1) as nat));
        lemma_compressed_walk(s, i, s[k] as int, (m - 1) as nat);
        assert(!terminal(s2, k));
        assert(walk(s2, k, m) == walk(s2, s[k] as int, (m - 1) as nat));
    }
}

proof fn lemma_compressed_walk_back(s: Seq<usize>, i: int, k: int, m: nat)
    requires
        resolves(s, i),
        terminal(compressed(s, i), walk(compressed(s, i), k, m)),
    ensures
        reaches(s, k),
    decreases m,
{
    let s2 = compressed(s, i);
    if on_path(s, i, k) {
        let mk: nat = choose|mm: nat| walk(s, i, mm) == k;
        lemma_reaches_to_walk(s, i, mk);
    } else if terminal(s2, k) {
        assert(terminal(s, k));
        lemma_root_from_walk(s, k, 0);
    } else {
        assert(m >= 1);
        assert(s2[k] == s[k]);
        assert(walk(s2, k, m) == walk(s2, s[k] as int, (m - 1) as nat));
        lemma_compressed_walk_back(s, i, s[k] as int, (m - 1) as nat);
        assert(!terminal(s, k));
        lemma_step(s, k);
    }
}

/// Path compression changes no element's root, and no element's
/// ability to resolve.
pub proof fn lemma_compressed_preserves(s: Seq<usize>, i: int)
    requires
        resolves(s, i),
    ensures
        compressed(s, i).len() == s.len(),
        forall|k: int| reaches(s, k) <==> reaches(compressed(s, i), k),
        forall|k: int| reaches(s, k) ==> root_of(compressed(s, i), k) == root_of(s, k),
        forall|k: int| resolves(s, k) <==> resolves(compressed(s, i), k),
{
    let s2 = compressed(s, i);
    assert forall|k: int| reaches(s, k) implies reaches(s2, k) && root_of(s2, k) == root_of(
        s,
        k,
    ) by {
        let m: nat = choose|mm: nat| terminal(s, walk(s, k, mm));
        lemma_compressed_walk(s, i, k, m);
        lemma_root_from_walk(s, k, m);
        lemma_root_from_walk(s2, k, m);
    }
    assert forall|k: int| reaches(s2, k) implies reaches(s, k) by {
        let m: nat = choose|mm: nat| terminal(s2, walk(s2, k, mm));
        lemma_compressed_walk_back(s, i, k, m);
    }
}

proof fn lemma_link_walk(s: Seq<usize>, ra: int, rb: int, k: int, m: nat)
    requires
        in_range(s, ra),
        in_range(s, rb),
        s[ra] == ra,
        s[rb] == rb,
        ra != rb,
        terminal(s, walk(s, k, m)),
    ensures
        reaches(s.update(rb, ra as usize), k),
        root_of(s.update(rb, ra as usize), k) == (if walk(s, k, m) == rb {
            ra
        } else {
            walk(s, k, m)
        }),
    decreases m,
{
    let s2 = s.update(rb, ra as usize);
    if terminal(s, k) {
        lemma_walk_absorb(s, k, m);
        if k == rb {
            assert(0 <= ra <= usize::MAX) by {
                assert(s[ra] == ra);
            }
            assert(s2[rb] == ra as usize);
            assert(s2[rb] as int == ra);
            assert(!terminal(s2, rb));
            assert(terminal(s2, ra));
            assert(walk(s2, rb, 1) == walk(s2, s2[rb] as int, 0));
            assert(walk(s2, rb, 1) == ra);
            lemma_root_from_walk(s2, rb, 1);
        } else {
            assert(terminal(s2, k));
            lemma_root_from_walk(s2, k, 0);
        }
    } else {
        assert(k != rb && k != ra);
        assert(s2[k] == s[k]);
        assert(m >= 1);
        assert(walk(s, k, m) == walk(s, s[k] as int, (m - 1) as nat));
        lemma_link_walk(s, ra, rb, s[k] as int, (m - 1) as nat);
        assert(!terminal(s2, k));
        lemma_step(s2, k);
    }
}

proof fn lemma_link_walk_back(s: Seq<usize>, ra: int, rb: int, k: int, m: nat)
    requires
        in_range(s, ra),
        in_range(s, rb),
        s[ra] == ra,
        s[rb] == rb,
        ra != rb,
        terminal(s.update(rb, ra as usize), walk(s.update(rb, ra as usize), k, m)),
    ensures
        reaches(s, k),
    decreases m,
{
    let s2 = s.update(rb, ra as usize);
    if k == rb {
        lemma_root_from_walk(s, rb, 0);
    } else if terminal(s2, k) {
        assert(terminal(s, k));
        lemma_root_from_walk(s, k, 0);
    } else {
        assert(m >= 1);
        assert(s2[k] == s[k]);
        assert(walk(s2, k, m) == walk(s2, s[k] as int, (m - 1) as nat));
        lemma_link_walk_back(s, ra, rb, s[k] as int, (m - 1) as nat);
        assert(!terminal(s, k));
        lemma_step(s, k);
    }
}

/// Rewriting one in-range root `rb` to point at another in-range root
/// `ra` merges the two classes: every element whose root was `rb` now
/// has root `ra`, and every other element keeps its root.
pub proof fn lemma_link(s: Seq<usize>, ra: int, rb: int)
    requires
        in_range(s, ra),
        in_range(s, rb),
        s[ra] == ra,
        s[rb] == rb,
    ensures
        s.update(rb, ra as usize).len() == s.len(),
        forall|k: int| reaches(s, k) <==> reaches(s.update(rb, ra as usize), k),
        forall|k: int|
            reaches(s, k) ==> root_of(s.update(rb, ra as usize), k) == (if root_of(s, k) == rb {
                ra
            } else {
                root_of(s, k)
            }),
        forall|k: int| resolves(s, k) <==> resolves(s.update(rb, ra as usize), k),
{
    let s2 = s.update(rb, ra as usize);
    if ra == rb {
        assert(s2 =~= s);
    } else {
        assert forall|k: int| reaches(s, k) implies reaches(s2, k) && root_of(s2, k) == (
        if root_of(s, k) == rb {
            ra
        } else {
            root_of(s, k)
        }) by {
            let m: nat = choose|mm: nat| terminal(s, walk(s, k, mm));
            lemma_root_from_walk(s, k, m);
            lemma_link_walk(s, ra, rb, k, m);
        }
        assert forall|k: int| reaches(s2, k) implies reaches(s, k) by {
            let m: nat = choose|mm: nat| terminal(s2, walk(s2, k, mm));
            lemma_link_walk_back(s, ra, rb, k, m);
        }
    }
}

/// The end of the chain from `i` is terminal; an in-range end is a
/// root.
pub proof fn lemma_root_terminal(s: Seq<usize>, i: int)
    requires
        reaches(s, i),
    ensures
        terminal(s, root_of(s, i)),
        in_range(s, root_of(s, i)) ==> s[root_of(s, i)] == root_of(s, i),
{
    let m: nat = choose|mm: nat| terminal(s, walk(s, i, mm));
    lemma_root_from_walk(s, i, m);
}

/// The parent sequence after `union(a, b)`: both lookups compress
/// their paths, then the root of `b` is rewritten to the root of `a`.
pub open spec fn after_union(s: Seq<usize>, a: int, b: int) -> Seq<usize> {
    compressed(compressed(s, b), a).update(root_of(s, b), root_of(s, a) as usize)
}

/// A union of the classes of `a` and `b` gives every element whose
/// root was the root of `b` the root of `a`, and keeps every other
/// element's root; which elements resolve does not change.
pub proof fn lemma_after_union_roots(s: Seq<usize>, a: int, b: int)
    requires
        resolves(s, a),
        resolves(s, b),
    ensures
        after_union(s, a, b).len() == s.len(),
        forall|k: int| reaches(s, k) <==> reaches(after_union(s, a, b), k),
        forall|k: int| resolves(s, k) <==> resolves(after_union(s, a, b), k),
        forall|k: int|
            resolves(s, k) ==> root_of(after_union(s, a, b), k) == (if root_of(s, k) == root_of(
                s,
                b,
            ) {
                root_of(s, a)
            } else {
                root_of(s, k)
            }),
{
    let s1 = compressed(s, b);
    lemma_compressed_preserves(s, b);
    let s2 = compressed(s1, a);
    lemma_compressed_preserves(s1, a);
    let ra = root_of(s, a);
    let rb = root_of(s, b);
    lemma_root_terminal(s, a);
    lemma_root_terminal(s, b);
    assert(s[ra] == ra && s[rb] == rb);
    assert(!on_path(s, b, ra) && !on_path(s, b, rb));
    assert(s1[ra] == ra && s1[rb] == rb);
    assert(terminal(s1, ra) && terminal(s1, rb));
    assert(!on_path(s1, a, ra) && !on_path(s1, a, rb));
    assert(s2[ra] == ra && s2[rb] == rb);
    lemma_link(s2, ra, rb);
    assert(after_union(s, a, b) == s2.update(rb, ra as usize));
}

proof fn lemma_push_walk(s: Seq<usize>, v: usize, k: int, m: nat)
    requires
        terminal(s, walk(s, k, m)),
        walk(s, k, m) != s.len(),
    ensures
        walk(s.push(v), k, m) == walk(s, k, m),
        terminal(s.push(v), walk(s, k, m)),
    decreases m,
{
    let s2 = s.push(v);
    if terminal(s, k) {
        lemma_walk_absorb(s, k, m);
        assert(terminal(s2, k));
        lemma_walk_absorb(s2, k, m);
    } else {
        assert(s2[k] == s[k]);
        assert(m >= 1);
        assert(walk(s, k, m) == walk(s, s[k] as int, (m - 1) as nat));
        lemma_push_walk(s, v, s[k] as int, (m - 1) as nat);
        assert(!terminal(s2, k));
        assert(walk(s2, k, m) == walk(s2, s[k] as int, (m - 1) as nat));
    }
}

/// Appending an element does not move the root of any element whose
/// chain did not end exactly at the old length.
pub proof fn lemma_push_keeps(s: Seq<usize>, v: usize)
    ensures
        forall|k: int|
            reaches(s, k) && root_of(s, k) != s.len() ==> reaches(s.push(v), k) && root_of(
                s.push(v),
                k,
            ) == root_of(s, k),
        forall|k: int| resolves(s, k) ==> resolves(s.push(v), k) && root_of(s.push(v), k)
            == root_of(s, k),
{
    let s2 = s.push(v);
    assert forall|k: int| reaches(s, k) && root_of(s, k) != s.len() implies reaches(s2, k)
        && root_of(s2, k) == root_of(s, k) by {
        let m: nat = choose|mm: nat| terminal(s, walk(s, k, mm));
        lemma_root_from_walk(s, k, m);
        lemma_push_walk(s, v, k, m);
        lemma_root_from_walk(s2, k, m);
    }
}

/// Appending a self-parented element makes it its own root.
pub proof fn lemma_push_new_root(s: Seq<usize>)
    requires
        s.len() <= usize::MAX,
    ensures
        resolves(s.push(s.len() as usize), s.len() as int),
        root_of(s.push(s.len() as usize), s.len() as int) == s.len(),
{
    let s2 = s.push(s.len() as usize);
    let n0 = s.len() as int;
    assert(s2[n0] == s.len() as usize);
    assert(terminal(s2, n0));
    lemma_root_from_walk(s2, n0, 0);
}

/// Appending an element under an existing root `p` gives the new
/// element the root `p`, and keeps `p` a root.
pub proof fn lemma_push_child(s: Seq<usize>, p: usize)
    requires
        in_range(s, p as int),
        s[p as int] == p,
    ensures
        resolves(s.push(p), s.len() as int),
        root_of(s.push(p), s.len() as int) == p,
        resolves(s.push(p), p as int),
        root_of(s.push(p), p as int) == p,
{
    let s2 = s.push(p);
    let n0 = s.len() as int;
    assert(s2[p as int] == p);
    assert(terminal(s2, p as int));
    lemma_root_from_walk(s2, p as int, 0);
    assert(s2[n0] == p);
    assert(p as int != n0);
    assert(!terminal(s2, n0));
    assert(walk(s2, n0, 1) == walk(s2, s2[n0] as int, 0));
    lemma_root_from_walk(s2, n0, 1);
}

} // verus!
