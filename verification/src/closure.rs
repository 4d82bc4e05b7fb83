//! The dependency-closure resolver: a worklist traversal that discovers
//! every library transitively required by a set of root dependencies,
//! terminates on cyclic graphs, and records each name exactly once.

use vstd::prelude::*;
use vstd::seq_lib::*;
use vstd::set_lib::lemma_len_subset;
use crate::names::{contains_name, lemma_push_contains, lemma_push_no_dup};

verus! {

/// One node of a dependency graph: a binary's name together with the names
/// of the libraries it directly requires.
pub struct DepNode {
    pub name: String,
    pub deps: Vec<String>,
}

/// A dependency graph given explicitly as a list of nodes. A name carried
/// by no node has no known dependencies (for instance a library that could
/// not be found or read).
pub struct DepGraph {
    pub nodes: Vec<DepNode>,
}

/// The direct dependencies that `g` records for `name`: those of the first
/// node carrying that name, or none when no node does.
pub open spec fn spec_deps_of(g: Seq<DepNode>, name: Seq<char>) -> Seq<Seq<char>>
    decreases g.len(),
{
    if g.len() == 0 {
        Seq::empty()
    } else if g[0].name@ == name {
        g[0].deps.deep_view()
    } else {
        spec_deps_of(g.drop_first(), name)
    }
}

impl DepGraph {
    /// The direct dependencies recorded for `name`, or `None` when the
    /// graph has no node of that name.
    pub fn deps_of<'a>(&'a self, name: &String) -> (r: Option<&'a Vec<String>>)
        ensures
            match r {
                Some(d) => d.deep_view() == spec_deps_of(self.nodes@, name@),
                None => spec_deps_of(self.nodes@, name@) == Seq::<Seq<char>>::empty(),
            },
    {
        let n = self.nodes.len();
        proof {
            assert(self.nodes@.skip(0) =~= self.nodes@);
        }
        let mut i: usize = 0;
        while i < n
            invariant
                0 <= i <= n,
                n == self.nodes@.len(),
                spec_deps_of(self.nodes@, name@) == spec_deps_of(self.nodes@.skip(i as int), name@),
            decreases n - i,
        {
            if self.nodes[i].name.eq(name) {
                proof {
                    assert(self.nodes@.skip(i as int)[0] == self.nodes@[i as int]);
                }
                return Some(&self.nodes[i].deps);
            }
            proof {
                let rest = self.nodes@.skip(i as int);
                assert(rest[0] == self.nodes@[i as int]);
                assert(rest.drop_first() =~= self.nodes@.skip(i + 1));
                assert(spec_deps_of(rest, name@) == spec_deps_of(rest.drop_first(), name@));
            }
            i += 1;
        }
        proof {
            assert(self.nodes@.skip(n as int) =~= Seq::<DepNode>::empty());
        }
        None
    }
}

/// Worklist state of the closure resolver. The set of discovered names is
/// the result set in the making; the pending list holds those discovered
/// names whose own dependencies have not yet been explored. A name enters
/// the state at most once, before its dependencies are explored, which is
/// what makes the traversal safe on cyclic graphs.
pub struct ClosureResolver {
    visited: Vec<String>,
    pending: Vec<String>,
}

impl ClosureResolver {
    /// The names discovered so far.
    pub closed spec fn visited_names(self) -> Seq<Seq<char>> {
        self.visited.deep_view()
    }

    /// The discovered names whose dependencies are still to be explored.
    pub closed spec fn pending_names(self) -> Seq<Seq<char>> {
        self.pending.deep_view()
    }

    /// Each name is discovered at most once, and every unexplored name has
    /// been discovered.
    pub closed spec fn wf(self) -> bool {
        &&& self.visited.deep_view().no_duplicates()
        &&& self.pending.deep_view().no_duplicates()
        &&& forall|n: Seq<char>| #[trigger] self.pending.deep_view().contains(n)
            ==> self.visited.deep_view().contains(n)
    }

    /// A fresh resolver: nothing discovered, nothing to explore.
    pub fn new() -> (r: Self)
        ensures
            r.wf(),
            r.visited_names() =~= Seq::<Seq<char>>::empty(),
            r.pending_names() =~= Seq::<Seq<char>>::empty(),
    {
        let r = ClosureResolver { visited: Vec::new(), pending: Vec::new() };
        proof {
            assert(r.visited.deep_view() =~= Seq::<Seq<char>>::empty());
            assert(r.pending.deep_view() =~= Seq::<Seq<char>>::empty());
        }
        r
    }

    /// Records newly discovered direct dependencies: each given name not
    /// seen before enters both the result set and the worklist, exactly
    /// once; names seen before are left alone.
    pub fn record_dependencies(&mut self, deps: &Vec<String>)
        requires
            old(self).wf(),
        ensures
            final(self).wf(),
            forall|n: Seq<char>| #[trigger] final(self).visited_names().contains(n)
                <==> (old(self).visited_names().contains(n) || deps.deep_view().contains(n)),
            forall|n: Seq<char>| #[trigger] final(self).pending_names().contains(n)
                <==> (old(self).pending_names().contains(n) || (deps.deep_view().contains(n)
                && !old(self).visited_names().contains(n))),
            final(self).visited_names().len() - old(self).visited_names().len()
                == final(self).pending_names().len() - old(self).pending_names().len(),
            final(self).visited_names().len() >= old(self).visited_names().len(),
    {
        let ghost v0 = self.visited.deep_view();
        let ghost p0 = self.pending.deep_view();
        let n = deps.len();
        let mut i: usize = 0;
        while i < n
            invariant
                0 <= i <= n,
                n == deps@.len(),
                self.wf(),
                v0 == old(self).visited_names(),
                p0 == old(self).pending_names(),
                forall|k: Seq<char>| #[trigger] self.visited_names().contains(k)
                    <==> (v0.contains(k) || deps.deep_view().subrange(0, i as int).contains(k)),
                forall|k: Seq<char>| #[trigger] self.pending_names().contains(k)
                    <==> (p0.contains(k) || (deps.deep_view().subrange(0, i as int).contains(k)
                    && !v0.contains(k))),
                self.visited_names().len() - v0.len() == self.pending_names().len() - p0.len(),
                self.visited_names().len() >= v0.len(),
            decreases n - i,
        {
            let ghost pre_v = self.visited.deep_view();
            let ghost pre_p = self.pending.deep_view();
            let ghost dv = deps.deep_view();
            let d = &deps[i];
            proof {
                assert(dv[i as int] == d@);
                assert(dv.subrange(0, i + 1) =~= dv.subrange(0, i as int).push(dv[i as int]));
            }
            if !contains_name(&self.visited, d) {
                proof {
                    assert(!pre_v.contains(d@));
                    assert(pre_p.contains(d@) ==> pre_v.contains(d@));
                }
                self.visited.push(d.clone());
                self.pending.push(d.clone());
                proof {
                    assert(self.visited.deep_view() =~= pre_v.push(d@));
                    assert(self.pending.deep_view() =~= pre_p.push(d@));
                    lemma_push_no_dup(pre_v, d@);
                    lemma_push_no_dup(pre_p, d@);
                    assert forall|k: Seq<char>| #[trigger] self.visited.deep_view().contains(k)
                        <==> (v0.contains(k) || dv.subrange(0, i + 1).contains(k)) by {
                        lemma_push_contains(pre_v, d@, k);
                        lemma_push_contains(dv.subrange(0, i as int), dv[i as int], k);
                    }
                    assert forall|k: Seq<char>| #[trigger] self.pending.deep_view().contains(k)
                        <==> (p0.contains(k) || (dv.subrange(0, i + 1).contains(k)
                        && !v0.contains(k))) by {
                        lemma_push_contains(pre_p, d@, k);
                        lemma_push_contains(dv.subrange(0, i as int), dv[i as int], k);
                    }
                    assert forall|k: Seq<char>| #[trigger] self.pending.deep_view().contains(k)
                        implies self.visited.deep_view().contains(k) by {
                        lemma_push_contains(pre_p, d@, k);
                        lemma_push_contains(pre_v, d@, k);
                    }
                }
            } else {
                proof {
                    assert(pre_v.contains(d@));
                    assert forall|k: Seq<char>| #[trigger] self.visited.deep_view().contains(k)
                        <==> (v0.contains(k) || dv.subrange(0, i + 1).contains(k)) by {
                        lemma_push_contains(dv.subrange(0, i as int), dv[i as int], k);
                    }
                    assert forall|k: Seq<char>| #[trigger] self.pending.deep_view().contains(k)
                        <==> (p0.contains(k) || (dv.subrange(0, i + 1).contains(k)
                        && !v0.contains(k))) by {
                        lemma_push_contains(dv.subrange(0, i as int), dv[i as int], k);
                    }
                }
            }
            i += 1;
        }
        proof {
            assert(deps.deep_view().subrange(0, n as int) =~= deps.deep_view());
        }
    }

    /// Hands out one discovered name whose dependencies are still to be
    /// explored, removing it from the worklist; the result set is unchanged.
    /// Returns `None` exactly when nothing is left to explore.
    pub fn take_pending(&mut self) -> (r: Option<String>)
        requires
            old(self).wf(),
        ensures
            final(self).wf(),
            final(self).visited_names() == old(self).visited_names(),
            match r {
                Some(name) => {
                    &&& old(self).pending_names().contains(name@)
                    &&& old(self).visited_names().contains(name@)
                    &&& final(self).pending_names().len() == old(self).pending_names().len() - 1
                    &&& forall|k: Seq<char>| #[trigger] final(self).pending_names().contains(k)
                        <==> (old(self).pending_names().contains(k) && k != name@)
                },
                None => {
                    &&& old(self).pending_names().len() == 0
                    &&& final(self).pending_names() == old(self).pending_names()
                },
            },
    {
        let ghost pre_p = self.pending.deep_view();
        let r = self.pending.pop();
        proof {
            match &r {
                Some(name) => {
                    assert(self.pending.deep_view() =~= pre_p.drop_last());
                    assert(pre_p[pre_p.len() - 1] == name@);
                    assert(pre_p.contains(name@));
                    let rest = pre_p.drop_last();
                    assert forall|k: Seq<char>| #[trigger] rest.contains(k)
                        <==> (pre_p.contains(k) && k != name@) by {
                        if rest.contains(k) {
                            let i = choose|i: int| 0 <= i < rest.len() && rest[i] == k;
                            assert(pre_p[i] == k);
                            if k == name@ {
                                assert(pre_p[i] == pre_p[pre_p.len() - 1]);
                            }
                        }
                        if pre_p.contains(k) && k != name@ {
                            let i = choose|i: int| 0 <= i < pre_p.len() && pre_p[i] == k;
                            assert(i < pre_p.len() - 1);
                            assert(rest[i] == k);
                        }
                    }
                },
                None => {
                    assert(self.pending.deep_view() =~= pre_p);
                },
            }
        }
        r
    }

    /// The final dependency set: every discovered name, each exactly once.
    pub fn into_names(self) -> (r: Vec<String>)
        requires
            self.wf(),
        ensures
            r.deep_view() == self.visited_names(),
            r.deep_view().no_duplicates(),
    {
        self.visited
    }
}

/// `n` is among the roots, or within `k` dependency steps of one.
pub open spec fn reaches(g: Seq<DepNode>, roots: Seq<Seq<char>>, n: Seq<char>, k: nat) -> bool
    decreases k,
{
    if k == 0 {
        roots.contains(n)
    } else {
        reaches(g, roots, n, (k - 1) as nat) || exists|m: Seq<char>|
            reaches(g, roots, m, (k - 1) as nat) && #[trigger] spec_deps_of(g, m).contains(n)
    }
}

/// `n` belongs to the dependency closure of the root names in `g`.
pub open spec fn reachable(g: Seq<DepNode>, roots: Seq<Seq<char>>, n: Seq<char>) -> bool {
    exists|k: nat| reaches(g, roots, n, k)
}

/// A recorded direct dependency of a closure member is itself a closure
/// member.
pub proof fn lemma_reachable_step(
    g: Seq<DepNode>,
    roots: Seq<Seq<char>>,
    m: Seq<char>,
    d: Seq<char>,
)
    requires
        reachable(g, roots, m),
        spec_deps_of(g, m).contains(d),
    ensures
        reachable(g, roots, d),
{
    let k = choose|k: nat| reaches(g, roots, m, k);
    assert(reaches(g, roots, d, k + 1));
}

/// Any set of names that holds every root and is closed under recorded
/// dependencies holds everything the closure holds.
proof fn lemma_closed_contains_closure(
    g: Seq<DepNode>,
    roots: Seq<Seq<char>>,
    s: Seq<Seq<char>>,
    n: Seq<char>,
    k: nat,
)
    requires
        forall|r: Seq<char>| #[trigger] roots.contains(r) ==> s.contains(r),
        forall|m: Seq<char>, d: Seq<char>| s.contains(m) && #[trigger] spec_deps_of(g, m).contains(
            d,
        ) ==> s.contains(d),
        reaches(g, roots, n, k),
    ensures
        s.contains(n),
    decreases k,
{
    if k == 0 {
        assert(roots.contains(n));
    } else if reaches(g, roots, n, (k - 1) as nat) {
        lemma_closed_contains_closure(g, roots, s, n, (k - 1) as nat);
    } else {
        let m = choose|m: Seq<char>| reaches(g, roots, m, (k - 1) as nat)
            && #[trigger] spec_deps_of(g, m).contains(n);
        lemma_closed_contains_closure(g, roots, s, m, (k - 1) as nat);
    }
}

/// Every dependency name that any node of `g` records.
pub open spec fn all_dep_names(g: Seq<DepNode>) -> Seq<Seq<char>>
    decreases g.len(),
{
    if g.len() == 0 {
        Seq::empty()
    } else {
        g[0].deps.deep_view() + all_dep_names(g.drop_first())
    }
}

/// A dependency recorded for any name stands among `all_dep_names`.
proof fn lemma_deps_in_all(g: Seq<DepNode>, m: Seq<char>, d: Seq<char>)
    requires
        spec_deps_of(g, m).contains(d),
    ensures
        all_dep_names(g).contains(d),
    decreases g.len(),
{
    if g.len() == 0 {
    } else if g[0].name@ == m {
        let dv = g[0].deps.deep_view();
        let i = choose|i: int| 0 <= i < dv.len() && dv[i] == d;
        assert(all_dep_names(g)[i] == d);
    } else {
        lemma_deps_in_all(g.drop_first(), m, d);
        let rest = all_dep_names(g.drop_first());
        let i = choose|i: int| 0 <= i < rest.len() && rest[i] == d;
        assert(all_dep_names(g)[g[0].deps.deep_view().len() + i] == d);
    }
}

/// A duplicate-free sequence drawing its elements from `u` is no longer
/// than `u`.
proof fn lemma_no_dup_len_bound(s: Seq<Seq<char>>, u: Seq<Seq<char>>)
    requires
        s.no_duplicates(),
        forall|n: Seq<char>| #[trigger] s.contains(n) ==> u.contains(n),
    ensures
        s.len() <= u.len(),
{
    broadcast use seq_to_set_is_finite;

    s.unique_seq_to_set();
    u.lemma_cardinality_of_set();
    assert(s.to_set().subset_of(u.to_set()));
    lemma_len_subset(s.to_set(), u.to_set());
}

/// Computes the dependency closure of the root names in `g`: the returned
/// list holds every name reachable from the roots, each exactly once, and
/// nothing else. The worklist traversal terminates on every graph, cyclic
/// ones included.
pub fn compute_closure(g: &DepGraph, roots: &Vec<String>) -> (r: Vec<String>)
    ensures
        r.deep_view().no_duplicates(),
        forall|n: Seq<char>| #[trigger] r.deep_view().contains(n) <==> reachable(
            g.nodes@,
            roots.deep_view(),
            n,
        ),
{
    let ghost gs = g.nodes@;
    let ghost rts = roots.deep_view();
    let ghost univ = rts + all_dep_names(gs);
    let mut res = ClosureResolver::new();
    res.record_dependencies(roots);
    proof {
        assert forall|n: Seq<char>| #[trigger] res.visited_names().contains(n) implies reachable(
            gs,
            rts,
            n,
        ) by {
            assert(rts.contains(n));
            assert(reaches(gs, rts, n, 0));
        }
        assert forall|n: Seq<char>| #[trigger] res.visited_names().contains(n) implies univ.contains(
            n,
        ) by {
            let i = choose|i: int| 0 <= i < rts.len() && rts[i] == n;
            assert(univ[i] == n);
        }
        lemma_no_dup_len_bound(res.visited_names(), univ);
    }
    loop
        invariant
            gs == g.nodes@,
            rts == roots.deep_view(),
            univ == rts + all_dep_names(gs),
            res.wf(),
            res.visited_names().len() <= univ.len(),
            forall|n: Seq<char>| #[trigger] res.visited_names().contains(n) ==> reachable(
                gs,
                rts,
                n,
            ),
            forall|n: Seq<char>| #[trigger] rts.contains(n) ==> res.visited_names().contains(n),
            forall|n: Seq<char>| #[trigger] res.visited_names().contains(n) ==> univ.contains(n),
            forall|m: Seq<char>, d: Seq<char>|
                res.visited_names().contains(m) && !res.pending_names().contains(m)
                    && #[trigger] spec_deps_of(gs, m).contains(d)
                    ==> res.visited_names().contains(d),
        ensures
            res.wf(),
            res.pending_names().len() == 0,
            forall|n: Seq<char>| #[trigger] res.visited_names().contains(n) ==> reachable(
                gs,
                rts,
                n,
            ),
            forall|n: Seq<char>| #[trigger] rts.contains(n) ==> res.visited_names().contains(n),
            forall|m: Seq<char>, d: Seq<char>|
                res.visited_names().contains(m) && #[trigger] spec_deps_of(gs, m).contains(d)
                    ==> res.visited_names().contains(d),
        decreases univ.len() - res.visited_names().len(), res.pending_names().len(),
    {
        let ghost v_pre = res.visited_names();
        let ghost p_pre = res.pending_names();
        let next = res.take_pending();
        match next {
            None => {
                break ;
            },
            Some(name) => {
                let ghost p1 = res.pending_names();
                let deps_opt = g.deps_of(&name);
                match deps_opt {
                    Some(deps) => {
                        proof {
                            assert(deps.deep_view() == spec_deps_of(gs, name@));
                        }
                        res.record_dependencies(deps);
                        proof {
                            assert forall|n: Seq<char>| #[trigger] res.visited_names().contains(n)
                                implies reachable(gs, rts, n) by {
                                if !v_pre.contains(n) {
                                    assert(spec_deps_of(gs, name@).contains(n));
                                    assert(v_pre.contains(name@));
                                    lemma_reachable_step(gs, rts, name@, n);
                                }
                            }
                            assert forall|n: Seq<char>| #[trigger] rts.contains(n) implies res
                                .visited_names().contains(n) by {
                                assert(v_pre.contains(n));
                            }
                            assert forall|n: Seq<char>| #[trigger] res.visited_names().contains(n)
                                implies univ.contains(n) by {
                                if !v_pre.contains(n) {
                                    assert(spec_deps_of(gs, name@).contains(n));
                                    lemma_deps_in_all(gs, name@, n);
                                    let rest = all_dep_names(gs);
                                    let i = choose|i: int| 0 <= i < rest.len() && rest[i] == n;
                                    assert(univ.len() == rts.len() + rest.len());
                                    assert((rts + rest)[rts.len() + i] == rest[i]);
                                    assert(univ[rts.len() + i] == n);
                                }
                            }
                            assert forall|m: Seq<char>, d: Seq<char>|
                                res.visited_names().contains(m) && !res.pending_names().contains(m)
                                    && #[trigger] spec_deps_of(gs, m).contains(d)
                                    implies res.visited_names().contains(d) by {
                                if m == name@ {
                                    assert(deps.deep_view().contains(d));
                                } else if v_pre.contains(m) {
                                    assert(!p1.contains(m));
                                    assert(!p_pre.contains(m));
                                } else {
                                    assert(deps.deep_view().contains(m));
                                    assert(res.pending_names().contains(m));
                                }
                            }
                            lemma_no_dup_len_bound(res.visited_names(), univ);
                        }
                    },
                    None => {
                        proof {
                            assert forall|m: Seq<char>, d: Seq<char>|
                                res.visited_names().contains(m) && !res.pending_names().contains(m)
                                    && #[trigger] spec_deps_of(gs, m).contains(d)
                                    implies res.visited_names().contains(d) by {
                                if m == name@ {
                                    assert(spec_deps_of(gs, name@).contains(d));
                                    assert(false);
                                } else {
                                    assert(!p_pre.contains(m));
                                }
                            }
                        }
                    },
                }
            },
        }
    }
    proof {
        assert forall|n: Seq<char>| reachable(gs, rts, n) implies res.visited_names().contains(
            n,
        ) by {
            let k = choose|k: nat| reaches(gs, rts, n, k);
            lemma_closed_contains_closure(gs, rts, res.visited_names(), n, k);
        }
    }
    res.into_names()
}

} // verus!
