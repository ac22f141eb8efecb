//! The disjoint-set structure itself: a growable parent-pointer
//! forest over dense, zero-based indices.

use vstd::prelude::*;

use crate::model::after_union;
use crate::model::all_resolve;
use crate::model::compressed;
use crate::model::fresh_parents;
use crate::model::in_range;
use crate::model::lemma_compressed_preserves;
use crate::model::lemma_cycle;
use crate::model::lemma_pigeonhole;
use crate::model::lemma_reaches_to_walk;
use crate::model::lemma_root_from_walk;
use crate::model::lemma_walk_add;
use crate::model::lemma_walk_extend;
use crate::model::lemma_after_union_roots;
use crate::model::on_path;
use crate::model::reaches;
use crate::model::resolves;
use crate::model::root_of;
use crate::model::terminal;
use crate::model::walk;
use crate::render::dec_digits;
use crate::render::push_dec;
use crate::render::render_entries;
use crate::render::render_parents;
use vstd::string::StringExecFns;

verus! {

/// `k` is listed in one of the groups.
pub open spec fn in_some_group(gs: Seq<Vec<usize>>, k: int) -> bool {
    exists|g: int, j: int| 0 <= g < gs.len() && 0 <= j < gs[g]@.len() && gs[g]@[j] == k
}

/// `gs` partitions the elements of `s` by their root: groups are
/// non-empty and ascending, every element appears in a group, two
/// elements share a group exactly when they share a root.
pub open spec fn groups_partition(s: Seq<usize>, gs: Seq<Vec<usize>>) -> bool {
    &&& forall|g: int| 0 <= g < gs.len() ==> #[trigger] gs[g]@.len() > 0
    &&& forall|g: int, j: int|
        0 <= g < gs.len() && 0 <= j < gs[g]@.len() ==> resolves(s, #[trigger] gs[g]@[j] as int)
    &&& forall|g: int, j1: int, j2: int|
        #![trigger gs[g]@[j1], gs[g]@[j2]]
        0 <= g < gs.len() && 0 <= j1 < j2 < gs[g]@.len() ==> gs[g]@[j1] < gs[g]@[j2]
    &&& forall|g: int, j1: int, j2: int|
        #![trigger gs[g]@[j1], gs[g]@[j2]]
        0 <= g < gs.len() && 0 <= j1 < gs[g]@.len() && 0 <= j2 < gs[g]@.len() ==> root_of(
            s,
            gs[g]@[j1] as int,
        ) == root_of(s, gs[g]@[j2] as int)
    &&& forall|g1: int, j1: int, g2: int, j2: int|
        #![trigger gs[g1]@[j1], gs[g2]@[j2]]
        0 <= g1 < gs.len() && 0 <= g2 < gs.len() && g1 != g2 && 0 <= j1 < gs[g1]@.len() && 0 <= j2
            < gs[g2]@.len() ==> root_of(s, gs[g1]@[j1] as int) != root_of(s, gs[g2]@[j2] as int)
    &&& forall|k: int| 0 <= k < s.len() ==> #[trigger] in_some_group(gs, k)
}

/// The one failure an operation can report: an index at or beyond the
/// current size was given, or a parent chain left the valid range.
#[derive(Clone, Copy, Debug, PartialEq, Eq, Structural)]
pub enum UfError {
    OutOfRange,
}

/// A disjoint-set (union-find) structure.  `parent[i]` is the
/// immediate parent of element `i`; an element is the representative
/// (root) of its set exactly when it is its own parent.
pub struct DisjointSet {
    parent: Vec<usize>,
}

impl View for DisjointSet {
    type V = Seq<usize>;

    closed spec fn view(&self) -> Seq<usize> {
        self.parent@
    }
}

impl DisjointSet {
    /// The number of elements.
    pub fn len(&self) -> (n: usize)
        ensures
            n == self@.len(),
    {
        self.parent.len()
    }

    /// A structure of `size` elements, each its own root.
    pub fn new(size: usize) -> (ds: DisjointSet)
        ensures
            ds@ == fresh_parents(size as nat),
    {
        let mut v: Vec<usize> = Vec::with_capacity(size);
        let mut i: usize = 0;
        while i < size
            invariant
                i <= size,
                v@.len() == i,
                forall|j: int| 0 <= j < i ==> v@[j] == j,
            decreases size - i,
        {
            v.push(i);
            i += 1;
        }
        proof {
            assert(v@ =~= fresh_parents(size as nat));
        }
        DisjointSet { parent: v }
    }

    /// The root of the set containing `i`, found by a pure chain walk
    /// that never mutates the structure.  Fails with `OutOfRange` when
    /// `i` is no element or its chain cannot resolve to an in-range
    /// root.
    pub fn find_fast(&self, i: usize) -> (r: Result<usize, UfError>)
        ensures
            r is Ok <==> resolves(self@, i as int),
            r matches Ok(root) ==> root as int == root_of(self@, i as int),
    {
        let ghost s = self@;
        let n = self.parent.len();
        let mut cur: usize = i;
        let mut steps: usize = 0;
        loop
            invariant
                self@ == s,
                n == s.len(),
                steps <= n,
                walk(s, i as int, steps as nat) == cur as int,
                forall|m: nat| m < steps ==> !terminal(s, #[trigger] walk(s, i as int, m)),
            decreases n - steps,
        {
            if cur >= n {
                proof {
                    assert(terminal(s, cur as int));
                    lemma_root_from_walk(s, i as int, steps as nat);
                }
                return Err(UfError::OutOfRange);
            }
            let p = self.parent[cur];
            if p == cur {
                proof {
                    assert(terminal(s, cur as int));
                    lemma_root_from_walk(s, i as int, steps as nat);
                    if steps > 0 {
                        assert(!terminal(s, walk(s, i as int, 0)));
                    }
                }
                return Ok(cur);
            }
            if steps == n {
                proof {
                    assert forall|m: nat| m <= n implies !terminal(
                        s,
                        #[trigger] walk(s, i as int, m),
                    ) by {
                        if m == steps as nat {
                            assert(walk(s, i as int, m) == cur as int);
                        }
                    }
                    Self::lemma_give_up(s, i as int, n as int);
                }
                return Err(UfError::OutOfRange);
            }
            proof {
                lemma_walk_add(s, i as int, steps as nat, 1);
                assert(walk(s, cur as int, 1) == walk(s, s[cur as int] as int, 0));
            }
            steps += 1;
            cur = p;
        }
    }

    /// When a chain has been walked for `n` non-terminal steps on a
    /// structure of `n` elements, it runs around a cycle: the start
    /// cannot resolve.
    proof fn lemma_give_up(s: Seq<usize>, i: int, n: int)
        requires
            n == s.len(),
            forall|m: nat| m <= n ==> !terminal(s, #[trigger] walk(s, i, m)),
        ensures
            !resolves(s, i),
    {
        let c = Seq::new((n + 1) as nat, |m: int| walk(s, i, m as nat));
        assert forall|u: int| 0 <= u < c.len() implies 0 <= #[trigger] c[u] < n by {
            assert(!terminal(s, walk(s, i, u as nat)));
        }
        lemma_pigeonhole(c, n);
        let (u, v): (int, int) = choose|u: int, v: int|
            0 <= u < v < c.len() && c[u] == c[v];
        let x = walk(s, i, u as nat);
        lemma_walk_add(s, i, u as nat, (v - u) as nat);
        assert(walk(s, x, (v - u) as nat) == x);
        assert(!terminal(s, x));
        lemma_cycle(s, x, (v - u) as nat);
        if reaches(s, i) {
            lemma_reaches_to_walk(s, i, u as nat);
        }
    }

    /// The root of the set containing `i`, with full path compression:
    /// on success every index visited on the way now points directly
    /// at the root.  Fails with `OutOfRange`, leaving the structure
    /// unchanged, when `i` is no element or its chain cannot resolve.
    pub fn find(&mut self, i: usize) -> (r: Result<usize, UfError>)
        ensures
            r is Ok <==> resolves(old(self)@, i as int),
            r matches Ok(root) ==> root as int == root_of(old(self)@, i as int) && final(self)@
                == compressed(old(self)@, i as int),
            r is Err ==> final(self)@ == old(self)@,
    {
        let ghost s = self@;
        let n = self.parent.len();
        let mut cur: usize = i;
        let mut steps: usize = 0;
        let mut children: Vec<usize> = Vec::new();
        loop
            invariant
                self@ == s,
                n == s.len(),
                steps <= n,
                children@.len() == steps,
                walk(s, i as int, steps as nat) == cur as int,
                forall|m: nat|
                    m < steps ==> children@[m as int] as int == #[trigger] walk(s, i as int, m)
                        && !terminal(s, walk(s, i as int, m)),
            decreases n - steps,
        {
            if cur >= n {
                proof {
                    assert(terminal(s, cur as int));
                    lemma_root_from_walk(s, i as int, steps as nat);
                }
                return Err(UfError::OutOfRange);
            }
            let p = self.parent[cur];
            if p == cur {
                proof {
                    assert(terminal(s, cur as int));
                    lemma_root_from_walk(s, i as int, steps as nat);
                    if steps > 0 {
                        assert(!terminal(s, walk(s, i as int, 0)));
                    }
                }
                let root = cur;
                self.compress(Ghost(s), Ghost(i as int), &children, root, Ghost(steps as nat));
                return Ok(root);
            }
            if steps == n {
                proof {
                    assert forall|m: nat| m <= n implies !terminal(
                        s,
                        #[trigger] walk(s, i as int, m),
                    ) by {
                        if m == steps as nat {
                            assert(walk(s, i as int, m) == cur as int);
                        }
                    }
                    Self::lemma_give_up(s, i as int, n as int);
                }
                return Err(UfError::OutOfRange);
            }
            children.push(cur);
            proof {
                lemma_walk_add(s, i as int, steps as nat, 1);
                assert(walk(s, cur as int, 1) == walk(s, s[cur as int] as int, 0));
            }
            steps += 1;
            cur = p;
        }
    }

    /// Rewrites every collected index to point directly at `root`;
    /// the second half of a compressing lookup.
    fn compress(
        &mut self,
        Ghost(s): Ghost<Seq<usize>>,
        Ghost(i): Ghost<int>,
        children: &Vec<usize>,
        root: usize,
        Ghost(steps): Ghost<nat>,
    )
        requires
            old(self)@ == s,
            children@.len() == steps,
            terminal(s, walk(s, i, steps)),
            walk(s, i, steps) == root as int,
            in_range(s, root as int),
            reaches(s, i),
            root_of(s, i) == root as int,
            forall|m: nat|
                m < steps ==> children@[m as int] as int == #[trigger] walk(s, i, m)
                    && !terminal(s, walk(s, i, m)),
        ensures
            final(self)@ == compressed(s, i),
    {
        let ghost n = s.len();
        let mut idx: usize = 0;
        while idx < children.len()
            invariant
                self@.len() == n,
                n == s.len(),
                children@.len() == steps,
                idx <= children@.len(),
                in_range(s, root as int),
                forall|m: nat|
                    m < steps ==> children@[m as int] as int == #[trigger] walk(s, i, m)
                        && !terminal(s, walk(s, i, m)),
                forall|j: int|
                    0 <= j < n ==> self@[j] == (if (exists|u: int|
                        0 <= u < idx && children@[u] == j) {
                        root
                    } else {
                        s[j]
                    }),
            decreases children@.len() - idx,
        {
            let ghost before = self@;
            let c = children[idx];
            proof {
                assert(children@[idx as int] as int == walk(s, i, idx as nat));
                assert(!terminal(s, c as int));
                assert(in_range(s, c as int));
            }
            self.parent[c] = root;
            proof {
                assert(self@ == before.update(c as int, root));
                assert forall|j: int| 0 <= j < n implies self@[j] == (if (exists|u: int|
                    0 <= u < idx + 1 && children@[u] == j) {
                    root
                } else {
                    s[j]
                }) by {
                    if j == c as int {
                        assert(children@[idx as int] == j);
                        assert(exists|u: int| 0 <= u < idx + 1 && children@[u] == j);
                    } else {
                        assert(self@[j] == before[j]);
                        if exists|u: int| 0 <= u < idx + 1 && children@[u] == j {
                            let u: int = choose|u: int| 0 <= u < idx + 1 && children@[u] == j;
                            assert(u != idx);
                            assert(exists|uu: int| 0 <= uu < idx && children@[uu] == j);
                        }
                    }
                }
            }
            idx += 1;
        }
        proof {
            assert forall|j: int| 0 <= j < n implies self@[j] == compressed(s, i)[j] by {
                if on_path(s, i, j) {
                    let m: nat = choose|m: nat| walk(s, i, m) == j;
                    if m < steps {
                        assert(children@[m as int] == j);
                        assert(exists|u: int| 0 <= u < children@.len() && children@[u] == j);
                        assert(self@[j] == root);
                        assert(root_of(s, i) as usize == root);
                    } else {
                        lemma_walk_extend(s, i, steps, m);
                        assert(terminal(s, j));
                    }
                } else {
                    if exists|u: int| 0 <= u < children@.len() && children@[u] == j {
                        let u: int = choose|u: int| 0 <= u < children@.len() && children@[u] == j;
                        assert(children@[u] as int == walk(s, i, u as nat));
                        assert(on_path(s, i, j));
                    }
                    assert(self@[j] == s[j]);
                }
            }
            assert(self@ =~= compressed(s, i));
        }
    }

    /// Merges the sets containing `a` and `b`: resolves both roots
    /// (compressing both paths), then makes the root of `b`'s set a
    /// child of the root of `a`'s set.  Asymmetric: `a`'s root stays a
    /// root.  Fails with `OutOfRange` when either side cannot resolve;
    /// `b` is resolved first, so a failure on `a` leaves `b`'s path
    /// compressed, but never moves any element to another set.
    pub fn union(&mut self, a: usize, b: usize) -> (r: Result<(), UfError>)
        ensures
            r is Ok <==> resolves(old(self)@, a as int) && resolves(old(self)@, b as int),
            r is Ok ==> final(self)@ == after_union(old(self)@, a as int, b as int),
            r is Ok ==> forall|k: int|
                resolves(old(self)@, k) ==> root_of(final(self)@, k) == (if root_of(old(self)@, k)
                    == root_of(old(self)@, b as int) {
                    root_of(old(self)@, a as int)
                } else {
                    root_of(old(self)@, k)
                }),
            r is Err ==> final(self)@ == (if resolves(old(self)@, b as int) {
                compressed(old(self)@, b as int)
            } else {
                old(self)@
            }),
            r is Err ==> forall|k: int|
                resolves(old(self)@, k) ==> root_of(final(self)@, k) == root_of(old(self)@, k),
            final(self)@.len() == old(self)@.len(),
            forall|k: int| resolves(old(self)@, k) <==> resolves(final(self)@, k),
    {
        let ghost s0 = self@;
        let rb = match self.find(b) {
            Ok(x) => x,
            Err(e) => {
                return Err(e);
            },
        };
        let ghost s1 = self@;
        proof {
            lemma_compressed_preserves(s0, b as int);
        }
        let ra = match self.find(a) {
            Ok(x) => x,
            Err(e) => {
                return Err(e);
            },
        };
        let ghost s2 = self@;
        proof {
            lemma_compressed_preserves(s1, a as int);
            lemma_after_union_roots(s0, a as int, b as int);
            assert(in_range(s2, rb as int));
        }
        self.parent[rb] = ra;
        proof {
            assert(self@ == s2.update(rb as int, ra));
            assert(rb as int == root_of(s0, b as int));
            assert(ra as int == root_of(s1, a as int));
            assert(ra as int == root_of(s0, a as int));
            assert(ra == root_of(s0, a as int) as usize);
            assert(self@ == after_union(s0, a as int, b as int));
        }
        Ok(())
    }

    /// Appends one element.  With `Some(p)` its initial parent is `p`,
    /// unchecked: an out-of-range `p` only surfaces as `OutOfRange` on
    /// a later lookup.  With `None` the new element is its own root.
    pub fn add(&mut self, parent: Option<usize>)
        ensures
            final(self)@ == old(self)@.push(
                match parent {
                    Some(p) => p,
                    None => old(self)@.len() as usize,
                },
            ),
    {
        let n = self.parent.len();
        match parent {
            Some(p) => self.parent.push(p),
            None => self.parent.push(n),
        }
    }

    /// Partitions all elements by their root, using the non-mutating
    /// lookup.  Each group lists its members in ascending index order;
    /// groups appear in order of their smallest member.  Fails with
    /// `OutOfRange` when some element's chain cannot resolve.
    pub fn groups(&self) -> (r: Result<Vec<Vec<usize>>, UfError>)
        ensures
            r is Ok <==> all_resolve(self@),
            r matches Ok(gs) ==> groups_partition(self@, gs@),
    {
        let ghost s = self@;
        let n = self.parent.len();
        let mut gs: Vec<Vec<usize>> = Vec::new();
        let mut rt: Vec<usize> = Vec::new();
        let mut i: usize = 0;
        while i < n
            invariant
                i <= n,
                rt@.len() == gs@.len(),
                forall|k: int| 0 <= k < i ==> resolves(s, k),
                forall|g: int| 0 <= g < gs@.len() ==> #[trigger] gs@[g]@.len() > 0,
                forall|g: int, j: int|
                    #![trigger gs@[g]@[j]]
                    0 <= g < gs@.len() && 0 <= j < gs@[g]@.len() ==> gs@[g]@[j] < i && resolves(
                        s,
                        gs@[g]@[j] as int,
                    ) && root_of(s, gs@[g]@[j] as int) == rt@[g] as int,
                forall|g: int, j1: int, j2: int|
                    #![trigger gs@[g]@[j1], gs@[g]@[j2]]
                    0 <= g < gs@.len() && 0 <= j1 < j2 < gs@[g]@.len() ==> gs@[g]@[j1]
                        < gs@[g]@[j2],
                forall|g1: int, g2: int|
                    #![trigger rt@[g1], rt@[g2]]
                    0 <= g1 < g2 < rt@.len() ==> rt@[g1] != rt@[g2],
                forall|k: int| 0 <= k < i ==> #[trigger] in_some_group(gs@, k),
            decreases n - i,
        {
            let r = match self.find_fast(i) {
                Ok(x) => x,
                Err(e) => {
                    proof {
                        assert(in_range(s, i as int) && !resolves(s, i as int));
                    }
                    return Err(e);
                },
            };
            let mut g: usize = 0;
            while g < rt.len() && rt[g] != r
                invariant
                    g <= rt@.len(),
                    forall|u: int| 0 <= u < g ==> rt@[u] != r,
                decreases rt@.len() - g,
            {
                g += 1;
            }
            let ghost gs0 = gs@;
            if g < gs.len() {
                let grp = &mut gs[g];
                grp.push(i);
                proof {
                    assert(rt@[g as int] == r);
                    assert(gs@[g as int]@ == gs0[g as int]@.push(i));
                    assert forall|k: int| 0 <= k < i + 1 implies #[trigger] in_some_group(
                        gs@,
                        k,
                    ) by {
                        if k < i {
                            assert(in_some_group(gs0, k));
                            let (g0, j0): (int, int) = choose|g0: int, j0: int|
                                0 <= g0 < gs0.len() && 0 <= j0 < gs0[g0]@.len() && gs0[g0]@[j0]
                                    == k;
                            assert(gs0[g0]@[j0] == k);
                            if g0 == g as int {
                                assert(gs@[g0]@[j0] == k);
                            } else {
                                assert(gs@[g0]@[j0] == k);
                            }
                        } else {
                            assert(gs@[g as int]@[gs0[g as int]@.len() as int] == i);
                        }
                    }
                }
            } else {
                let mut grp: Vec<usize> = Vec::new();
                grp.push(i);
                gs.push(grp);
                rt.push(r);
                proof {
                    assert(gs@[gs0.len() as int]@ =~= seq![i]);
                    assert forall|k: int| 0 <= k < i + 1 implies #[trigger] in_some_group(
                        gs@,
                        k,
                    ) by {
                        if k < i {
                            assert(in_some_group(gs0, k));
                            let (g0, j0): (int, int) = choose|g0: int, j0: int|
                                0 <= g0 < gs0.len() && 0 <= j0 < gs0[g0]@.len() && gs0[g0]@[j0]
                                    == k;
                            assert(gs0[g0]@[j0] == k);
                            assert(gs@[g0]@[j0] == k);
                        } else {
                            assert(gs@[gs0.len() as int]@[0] == i);
                        }
                    }
                }
            }
            i += 1;
        }
        proof {
            assert forall|g: int, j1: int, j2: int|
                #![trigger gs@[g]@[j1], gs@[g]@[j2]]
                0 <= g < gs@.len() && 0 <= j1 < gs@[g]@.len() && 0 <= j2
                    < gs@[g]@.len() implies root_of(s, gs@[g]@[j1] as int) == root_of(
                s,
                gs@[g]@[j2] as int,
            ) by {
                assert(root_of(s, gs@[g]@[j1] as int) == rt@[g] as int);
                assert(root_of(s, gs@[g]@[j2] as int) == rt@[g] as int);
            }
            assert forall|g1: int, j1: int, g2: int, j2: int|
                #![trigger gs@[g1]@[j1], gs@[g2]@[j2]]
                0 <= g1 < gs@.len() && 0 <= g2 < gs@.len() && g1 != g2 && 0 <= j1 < gs@[g1]@.len()
                    && 0 <= j2 < gs@[g2]@.len() implies root_of(s, gs@[g1]@[j1] as int) != root_of(
                s,
                gs@[g2]@[j2] as int,
            ) by {
                if g1 < g2 {
                    assert(rt@[g1] != rt@[g2]);
                } else {
                    assert(rt@[g2] != rt@[g1]);
                }
            }
        }
        Ok(gs)
    }

    /// The diagnostic string form: the raw parent array, index
    /// aligned, e.g. `[0, 1, 2]`.  Not a stable serialization format.
    pub fn to_display_string(&self) -> (r: String)
        ensures
            r@ == render_parents(self@),
    {
        let mut out = String::new();
        out.append("[");
        proof {
            reveal_strlit("[");
            assert(out@ =~= seq!['['] + render_entries(self@.take(0)));
        }
        let n = self.parent.len();
        let mut i: usize = 0;
        while i < n
            invariant
                i <= n,
                n == self@.len(),
                out@ == seq!['['] + render_entries(self@.take(i as int)),
            decreases n - i,
        {
            if i > 0 {
                out.append(", ");
                proof {
                    reveal_strlit(", ");
                }
            }
            push_dec(&mut out, self.parent[i]);
            proof {
                let t1 = self@.take(i as int);
                let t2 = self@.take(i + 1);
                assert(t2.drop_last() =~= t1);
                assert(t2.last() == self@[i as int]);
                if i == 0 {
                    assert(render_entries(t2) == dec_digits(self@[0] as nat));
                } else {
                    assert(render_entries(t2) == render_entries(t1) + seq![',', ' ']
                        + dec_digits(self@[i as int] as nat));
                }
                assert(out@ =~= seq!['['] + render_entries(t2));
            }
            i += 1;
        }
        out.append("]");
        proof {
            reveal_strlit("]");
            assert(self@.take(n as int) =~= self@);
            assert(out@ =~= render_parents(self@));
        }
        out
    }
}

} // verus!
