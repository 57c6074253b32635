//! Explicit-state model checking.
//!
//! The model checker answers a *safety* question — "is a bad state reachable
//! from an initial state?" — by exploring the reachable state graph breadth
//! first. When the property is violated it returns a concrete counterexample
//! trace, which is the diagnostic that makes model checking useful in
//! practice.
//!
//! The state graph of a [`Model`] is described by its spec functions; a
//! state is reachable when a path of enabled actions leads to it from an
//! initial state ([`reachable_state`]).
use vstd::prelude::*;
use std::hash::Hash;
use crate::structural_eq;
use vstd::std_specs::cmp::PartialEqSpec;

verus! {

/// A transition system to be model-checked.
///
/// Implementors describe a (finite, reachable) state graph: a set of initial
/// states, the actions enabled in each state, the deterministic successor, and
/// which states violate the safety property. The spec functions state what
/// each method returns.
pub trait Model {
    /// The state type. Must be comparable for visited-set tracking.
    type State: Clone + Eq + Hash;
    /// The action type.
    type Action: Clone + Eq + Hash;

    /// Whether `state` is an initial state.
    spec fn is_initial(&self, state: Self::State) -> bool;

    /// Whether `action` is enabled in `state`.
    spec fn enabled(&self, state: Self::State, action: Self::Action) -> bool;

    /// The state reached by taking `action` from `state`.
    spec fn successor(&self, state: Self::State, action: Self::Action) -> Self::State;

    /// Whether `state` violates the safety property.
    spec fn violates(&self, state: Self::State) -> bool;

    /// The initial states of the system.
    fn initials(&self) -> (r: Vec<Self::State>)
        ensures
            forall|s: Self::State| r@.contains(s) <==> self.is_initial(s),
    ;

    /// The actions enabled in `state`.
    fn actions(&self, state: &Self::State) -> (r: Vec<Self::Action>)
        ensures
            forall|a: Self::Action| r@.contains(a) <==> self.enabled(*state, a),
    ;

    /// The state reached by taking `action` from `state`.
    fn step(&self, state: &Self::State, action: &Self::Action) -> (r: Self::State)
        ensures
            r == self.successor(*state, *action),
    ;

    /// Whether `state` violates the safety property under check.
    fn is_error(&self, state: &Self::State) -> (r: bool)
        ensures
            r == self.violates(*state),
    ;
}

/// `path` is a run of `m`: it starts in an initial state, and each next state
/// is the successor of the previous one under an enabled action `acts[k]`.
pub open spec fn valid_path<M: Model>(m: &M, path: Seq<M::State>, acts: Seq<M::Action>) -> bool {
    &&& path.len() >= 1
    &&& acts.len() + 1 == path.len()
    &&& m.is_initial(path[0])
    &&& forall|k: int|
        0 <= k < acts.len() ==> m.enabled(path[k], #[trigger] acts[k]) && m.successor(
            path[k],
            acts[k],
        ) == path[k + 1]
}

/// `s` is reachable: some run of `m` ends in it.
pub open spec fn reachable_state<M: Model>(m: &M, s: M::State) -> bool {
    exists|path: Seq<M::State>, acts: Seq<M::Action>| valid_path(m, path, acts) && path.last() == s
}

/// `r` holds every initial state and every successor of its states.
pub open spec fn closed_set<M: Model>(m: &M, r: Set<M::State>) -> bool {
    &&& forall|s: M::State| m.is_initial(s) ==> #[trigger] r.contains(s)
    &&& forall|s: M::State, a: M::Action|
        r.contains(s) && m.enabled(s, a) ==> #[trigger] r.contains(m.successor(s, a))
}

/// The reachable part of the state graph is finite.
pub open spec fn finitely_reachable<M: Model>(m: &M) -> bool {
    exists|r: Set<M::State>| r.finite() && closed_set(m, r)
}

/// A counterexample: a path of states from an initial state to a violating
/// state, annotated with the action taken at each step.
#[derive(Clone, Debug)]
pub struct Counterexample<S, A> {
    /// Alternating `(state, action_taken)` pairs; the last entry's action is
    /// `None` (it is the violating terminal state).
    pub steps: Vec<(S, Option<A>)>,
}

/// The result of a safety check.
#[derive(Clone, Debug)]
pub enum SafetyResult<S, A> {
    /// No error state is reachable.
    Safe,
    /// An error state is reachable; the witness is the counterexample trace.
    Violated(Counterexample<S, A>),
}

/// Entry `k` of `steps` is not an error and moves by an enabled action to
/// entry `k + 1`.
pub open spec fn counterexample_step<M: Model>(
    m: &M,
    steps: Seq<(M::State, Option<M::Action>)>,
    k: int,
) -> bool {
    &&& steps[k].1 is Some
    &&& m.enabled(steps[k].0, steps[k].1->0)
    &&& m.successor(steps[k].0, steps[k].1->0) == steps[k + 1].0
    &&& !m.violates(steps[k].0)
}

/// `steps` is a counterexample for `m`: its states form a run of `m` under
/// the actions recorded beside them, every state but the last is not an
/// error, and the last is an error with no action.
pub open spec fn valid_counterexample<M: Model>(m: &M, steps: Seq<(M::State, Option<M::Action>)>) -> bool {
    &&& steps.len() >= 1
    &&& m.is_initial(steps[0].0)
    &&& forall|k: int| 0 <= k < steps.len() - 1 ==> #[trigger] counterexample_step(m, steps, k)
    &&& steps.last().1 is None
    &&& m.violates(steps.last().0)
}

/// No state occurs twice in `s`.
pub open spec fn no_dups<S>(s: Seq<S>) -> bool {
    forall|i: int, j: int| 0 <= i < j < s.len() ==> s[i] != s[j]
}

/// The position of `x` in `seen`, if it occurs there.
fn find_index<S: PartialEq>(seen: &Vec<S>, x: &S) -> (r: Option<usize>)
    requires
        structural_eq::<S>(),
    ensures
        r matches Some(i) ==> i < seen@.len() && seen@[i as int] == *x,
        r is None ==> !seen@.contains(*x),
{
    let mut i: usize = 0;
    while i < seen.len()
        invariant
            0 <= i <= seen@.len(),
            structural_eq::<S>(),
            forall|k: int| 0 <= k < i ==> seen@[k] != *x,
        decreases seen@.len() - i,
    {
        let same = seen[i] == *x;
        proof {
            assert(seen@[i as int].eq_spec(x) <==> seen@[i as int] == *x);
        }
        if same {
            return Some(i);
        }
        i += 1;
    }
    None
}

proof fn lemma_nodup_len<S>(s: Seq<S>, r: Set<S>)
    requires
        no_dups(s),
        r.finite(),
        forall|i: int| 0 <= i < s.len() ==> r.contains(#[trigger] s[i]),
    ensures
        s.len() <= r.len(),
{
    assert(s.no_duplicates());
    s.unique_seq_to_set();
    assert(s.to_set().subset_of(r));
    vstd::set_lib::lemma_len_subset(s.to_set(), r);
}

/// The last state of a counterexample is a reachable error state.
pub proof fn lemma_counterexample_reaches_error<M: Model>(
    m: &M,
    steps: Seq<(M::State, Option<M::Action>)>,
)
    requires
        valid_counterexample(m, steps),
    ensures
        reachable_state(m, steps.last().0),
        m.violates(steps.last().0),
{
    let path = steps.map_values(|x: (M::State, Option<M::Action>)| x.0);
    let acts = steps.subrange(0, steps.len() - 1).map_values(
        |x: (M::State, Option<M::Action>)| x.1->0,
    );
    assert forall|k: int| 0 <= k < acts.len() implies m.enabled(path[k], 
        #[trigger] acts[k],
    ) && m.successor(path[k], acts[k]) == path[k + 1] by {
        assert(counterexample_step(m, steps, k));
    }
    assert(valid_path(m, path, acts));
    assert(path.last() == steps.last().0);
}

/// Every state of a run lies in a closed set of states.
proof fn lemma_path_in_closed<M: Model>(
    m: &M,
    r: Set<M::State>,
    path: Seq<M::State>,
    acts: Seq<M::Action>,
    k: int,
)
    requires
        closed_set(m, r),
        valid_path(m, path, acts),
        0 <= k < path.len(),
    ensures
        r.contains(path[k]),
    decreases k,
{
    if k > 0 {
        lemma_path_in_closed(m, r, path, acts, k - 1);
        assert(m.enabled(path[k - 1], acts[k - 1]));
    }
}

/// Entry `k` of a partial counterexample (a tail of one, starting anywhere)
/// moves on, and the last entry is an error with no action.
pub open spec fn valid_tail<M: Model>(m: &M, steps: Seq<(M::State, Option<M::Action>)>) -> bool {
    &&& steps.len() >= 1
    &&& forall|k: int| 0 <= k < steps.len() - 1 ==> #[trigger] counterexample_step(m, steps, k)
    &&& steps.last().1 is None
    &&& m.violates(steps.last().0)
}

/// The parent links recorded by the search: a state without a parent is
/// initial, and a state with parent `(p, a)` is the successor of the earlier
/// state `p` under the enabled action `a`.
pub open spec fn parents_ok<M: Model>(
    m: &M,
    seen: Seq<M::State>,
    parents: Seq<Option<(usize, M::Action)>>,
) -> bool {
    &&& seen.len() == parents.len()
    &&& forall|i: int|
        0 <= i < parents.len() ==> match #[trigger] parents[i] {
            None => m.is_initial(seen[i]),
            Some((p, a)) => p < i && m.enabled(seen[p as int], a) && m.successor(
                seen[p as int],
                a,
            ) == seen[i],
        }
}

/// The depths recorded by the search: a state without a parent has depth
/// 0, and a state with a parent one more than its parent.
pub open spec fn depths_ok<A>(parents: Seq<Option<(usize, A)>>, dist: Seq<int>) -> bool {
    &&& dist.len() == parents.len()
    &&& forall|i: int|
        0 <= i < parents.len() ==> match #[trigger] parents[i] {
            None => dist[i] == 0,
            Some((p, a)) => p < i && dist[i] == dist[p as int] + 1,
        }
}

/// `s` was found by the search at depth `d` or less.
pub open spec fn seen_within<S>(seen: Seq<S>, dist: Seq<int>, s: S, d: int) -> bool {
    exists|y: int| 0 <= y < seen.len() && seen[y] == s && dist[y] <= d
}

/// Breadth-first coverage: while the search expands entry `head`, every
/// state that a run of at most `depth(head)` steps reaches was found at a
/// depth no greater than the run's length.
proof fn lemma_bfs_cover<M: Model>(
    m: &M,
    seen: Seq<M::State>,
    dist: Seq<int>,
    head: int,
    path: Seq<M::State>,
    acts: Seq<M::Action>,
    i: int,
)
    requires
        0 <= head < seen.len(),
        dist.len() == seen.len(),
        forall|x: int, y: int| 0 <= x < y < seen.len() ==> #[trigger] dist[x] <= #[trigger] dist[y],
        forall|s: M::State| m.is_initial(s) ==> #[trigger] seen_within(seen, dist, s, 0),
        forall|x: int, a: M::Action|
            0 <= x < head && m.enabled(seen[x], a) ==> #[trigger] seen_within(seen, dist, m.successor(seen[x], a), dist[x] + 1),
        valid_path(m, path, acts),
        acts.len() <= dist[head],
        0 <= i <= acts.len(),
    ensures
        seen_within(seen, dist, path[i], i),
    decreases i,
{
    if i == 0 {
        assert(seen_within(seen, dist, path[0], 0));
    } else {
        lemma_bfs_cover(m, seen, dist, head, path, acts, i - 1);
        let y = choose|y: int| 0 <= y < seen.len() && seen[y] == path[i - 1] && dist[y] <= i - 1;
        if y >= head {
            if y > head {
                assert(dist[head] <= dist[y]);
            }
            assert(false);
        }
        assert(m.enabled(path[i - 1], acts[i - 1]) && m.successor(path[i - 1], acts[i - 1]) == path[i]);
        assert(seen_within(seen, dist, m.successor(seen[y], acts[i - 1]), dist[y] + 1));
        let z = choose|z: int| 0 <= z < seen.len() && seen[z] == m.successor(seen[y], acts[i - 1]) && dist[z] <= dist[y] + 1;
        assert(seen[z] == path[i]);
    }
}

/// Build the counterexample that follows the parent links back from entry
/// `head` and ends with the step `action` into the error state `next`: it
/// has `depth(head) + 2` entries.
fn build_counterexample<M: Model>(
    model: &M,
    seen: Vec<M::State>,
    parents: Vec<Option<(usize, M::Action)>>,
    head: usize,
    action: M::Action,
    next: M::State,
    Ghost(dist): Ghost<Seq<int>>,
) -> (r: Vec<(M::State, Option<M::Action>)>)
    requires
        parents_ok(model, seen@, parents@),
        depths_ok(parents@, dist),
        head < seen@.len(),
        forall|i: int| 0 <= i < seen@.len() ==> !model.violates(#[trigger] seen@[i]),
        model.enabled(seen@[head as int], action),
        model.successor(seen@[head as int], action) == next,
        model.violates(next),
    ensures
        valid_counterexample(model, r@),
        r@.len() == dist[head as int] + 2,
{
    let ghost gs = seen@;
    let ghost gp = parents@;
    let mut seen = seen;
    let mut parents = parents;
    let mut out: Vec<(M::State, Option<M::Action>)> = Vec::new();
    out.push((next, None));
    let n = seen.len();
    assert(head < n);
    seen.truncate(head + 1);
    parents.truncate(head + 1);
    let state = match seen.pop() {
        Some(x) => x,
        None => {
            return out;
        },
    };
    out.insert(0, (state, Some(action)));
    proof {
        assert(counterexample_step(model, out@, 0));
        assert(out@.last() == (next, None::<M::Action>));
    }
    let mut k = head;
    loop
        invariant
            k <= head,
            head < gs.len(),
            parents_ok(model, gs, gp),
            forall|i: int| 0 <= i < gs.len() ==> !model.violates(#[trigger] gs[i]),
            seen@ == gs.subrange(0, k as int),
            parents@ == gp.subrange(0, k as int + 1),
            valid_tail(model, out@),
            out@[0].0 == gs[k as int],
            depths_ok(gp, dist),
            out@.len() + dist[k as int] == dist[head as int] + 2,
        decreases k,
    {
        let entry = parents.pop();
        proof {
            assert(entry == Some(gp[k as int]));
        }
        match entry {
            Some(Some((p, a))) => {
                proof {
                    assert(gp[k as int] == Some((p, a)));
                    assert(p < k);
                }
                seen.truncate(p + 1);
                let sp = match seen.pop() {
                    Some(x) => x,
                    None => {
                        return out;
                    },
                };
                proof {
                    assert(sp == gs[p as int]);
                }
                let ghost old_out = out@;
                out.insert(0, (sp, Some(a)));
                parents.truncate(p + 1);
                proof {
                    assert(out@ == old_out.insert(0, (gs[p as int], Some(a))));
                    assert forall|j: int| 0 <= j < out@.len() - 1 implies #[trigger] counterexample_step(
                        model,
                        out@,
                        j,
                    ) by {
                        if j > 0 {
                            assert(out@[j] == old_out[j - 1]);
                            assert(out@[j + 1] == old_out[j]);
                            assert(counterexample_step(model, old_out, j - 1));
                        }
                    }
                    assert(out@.last() == old_out.last());
                    assert(parents@ =~= gp.subrange(0, p as int + 1));
                    assert(seen@ =~= gs.subrange(0, p as int));
                }
                k = p;
            },
            _ => {
                proof {
                    assert(gp[k as int] is None);
                    assert(model.is_initial(gs[k as int]));
                }
                return out;
            },
        }
    }
}

/// Explore the reachable state graph of `model` and decide the safety property.
///
/// Returns [`SafetyResult::Safe`] exactly when no error state is reachable,
/// otherwise [`SafetyResult::Violated`] with a counterexample run that ends
/// in an error state. The states must compare by identity, and the
/// reachable part of the graph must be finite (else the search does not
/// end).
pub fn check_safety<M: Model>(model: &M) -> (r: SafetyResult<M::State, M::Action>)
    requires
        structural_eq::<M::State>(),
        finitely_reachable(model),
    ensures
        r is Safe <==> (forall|s: M::State| reachable_state(model, s) ==> !model.violates(s)),
        r matches SafetyResult::Violated(ce) ==> valid_counterexample(model, ce.steps@),
        r matches SafetyResult::Violated(ce) ==> forall|path: Seq<M::State>, acts: Seq<M::Action>|
            valid_path(model, path, acts) && model.violates(path.last()) ==> ce.steps@.len() <= path.len(),
{
    let ghost rset = choose|r: Set<M::State>| r.finite() && closed_set(model, r);
    let mut seen: Vec<M::State> = Vec::new();
    let mut parents: Vec<Option<(usize, M::Action)>> = Vec::new();
    let ghost mut dist: Seq<int> = Seq::empty();
    let mut inits = model.initials();
    let ghost all_inits = inits@;
    let n0 = inits.len();
    let mut i: usize = 0;
    while i < n0
        invariant
            0 <= i <= n0,
            n0 == all_inits.len(),
            forall|s: M::State| all_inits.contains(s) <==> model.is_initial(s),
            inits@ == all_inits.subrange(i as int, n0 as int),
            structural_eq::<M::State>(),
            rset.finite(),
            closed_set(model, rset),
            parents_ok(model, seen@, parents@),
            no_dups(seen@),
            forall|x: int| 0 <= x < seen@.len() ==> rset.contains(#[trigger] seen@[x]),
            forall|x: int| 0 <= x < seen@.len() ==> !model.violates(#[trigger] seen@[x]),
            forall|x: int| 0 <= x < i ==> seen@.contains(#[trigger] all_inits[x]),
            depths_ok(parents@, dist),
            forall|x: int| 0 <= x < dist.len() ==> #[trigger] dist[x] == 0,
        decreases n0 - i,
    {
        let init = inits.remove(0);
        proof {
            assert(init == all_inits[i as int]);
            assert(inits@ =~= all_inits.subrange(i + 1, n0 as int));
            assert(all_inits.contains(init));
            assert(model.is_initial(init));
        }
        if model.is_error(&init) {
            let mut steps: Vec<(M::State, Option<M::Action>)> = Vec::new();
            let ghost iv = init;
            steps.push((init, None));
            proof {
                assert(steps@.last() == (iv, None::<M::Action>));
                assert(valid_counterexample(model, steps@));
                lemma_counterexample_reaches_error(model, steps@);
            }
            return SafetyResult::Violated(Counterexample { steps });
        }
        if find_index(&seen, &init).is_none() {
            let ghost s0 = seen@;
            seen.push(init);
            parents.push(None);
            proof {
                dist = dist.push(0);
                assert(seen@.last() == init);
                assert forall|x: int| 0 <= x < i + 1 implies seen@.contains(#[trigger] all_inits[x]) by {
                    if x < i {
                        let w = choose|w: int| 0 <= w < s0.len() && s0[w] == all_inits[x];
                        assert(seen@[w] == all_inits[x]);
                    } else {
                        assert(seen@[s0.len() as int] == all_inits[x]);
                    }
                }
            }
        }
        i += 1;
    }
    let mut head: usize = 0;
    while head < seen.len()
        invariant
            0 <= head <= seen@.len(),
            structural_eq::<M::State>(),
            rset.finite(),
            closed_set(model, rset),
            parents_ok(model, seen@, parents@),
            no_dups(seen@),
            forall|x: int| 0 <= x < seen@.len() ==> rset.contains(#[trigger] seen@[x]),
            forall|x: int| 0 <= x < seen@.len() ==> !model.violates(#[trigger] seen@[x]),
            forall|s: M::State| model.is_initial(s) ==> seen@.contains(s),
            forall|x: int, a: M::Action|
                0 <= x < head && model.enabled(seen@[x], a) ==> seen@.contains(
                    #[trigger] model.successor(seen@[x], a),
                ),
            depths_ok(parents@, dist),
            forall|x: int, y: int| 0 <= x < y < seen@.len() ==> #[trigger] dist[x] <= #[trigger] dist[y],
            head < seen@.len() ==> forall|y: int| 0 <= y < seen@.len() ==> #[trigger] dist[y] <= dist[head as int] + 1,
            forall|s: M::State| model.is_initial(s) ==> #[trigger] seen_within(seen@, dist, s, 0),
            forall|x: int, a: M::Action|
                0 <= x < head && model.enabled(seen@[x], a) ==> #[trigger] seen_within(seen@, dist, model.successor(seen@[x], a), dist[x] + 1),
        decreases rset.len() - head,
    {
        proof {
            lemma_nodup_len(seen@, rset);
        }
        let mut acts = model.actions(&seen[head]);
        let ghost all_acts = acts@;
        let ghost cur = seen@[head as int];
        let na = acts.len();
        let mut j: usize = 0;
        while j < na
            invariant
                0 <= j <= na,
                na == all_acts.len(),
                head < seen@.len(),
                cur == seen@[head as int],
                forall|a: M::Action| all_acts.contains(a) <==> model.enabled(cur, a),
                acts@ == all_acts.subrange(j as int, na as int),
                structural_eq::<M::State>(),
                rset.finite(),
                closed_set(model, rset),
                parents_ok(model, seen@, parents@),
                no_dups(seen@),
                forall|x: int| 0 <= x < seen@.len() ==> rset.contains(#[trigger] seen@[x]),
                forall|x: int| 0 <= x < seen@.len() ==> !model.violates(#[trigger] seen@[x]),
                forall|s: M::State| model.is_initial(s) ==> seen@.contains(s),
                forall|x: int, a: M::Action|
                    0 <= x < head && model.enabled(seen@[x], a) ==> seen@.contains(
                        #[trigger] model.successor(seen@[x], a),
                    ),
                forall|y: int| 0 <= y < j ==> seen@.contains(#[trigger] model.successor(cur, all_acts[y])),
                depths_ok(parents@, dist),
                forall|x: int, y: int| 0 <= x < y < seen@.len() ==> #[trigger] dist[x] <= #[trigger] dist[y],
                forall|y: int| 0 <= y < seen@.len() ==> #[trigger] dist[y] <= dist[head as int] + 1,
                forall|s: M::State| model.is_initial(s) ==> #[trigger] seen_within(seen@, dist, s, 0),
                forall|x: int, a: M::Action|
                    0 <= x < head && model.enabled(seen@[x], a) ==> #[trigger] seen_within(seen@, dist, model.successor(seen@[x], a), dist[x] + 1),
                forall|y: int| 0 <= y < j ==> #[trigger] seen_within(seen@, dist, model.successor(cur, all_acts[y]), dist[head as int] + 1),
            decreases na - j,
        {
            let action = acts.remove(0);
            proof {
                assert(action == all_acts[j as int]);
                assert(acts@ =~= all_acts.subrange(j + 1, na as int));
                assert(all_acts[j as int] == action);
                assert(all_acts.contains(action));
                assert(model.enabled(cur, action));
            }
            let next = model.step(&seen[head], &action);
            if model.is_error(&next) {
                let ghost gs = seen@;
                proof {
                    assert forall|path: Seq<M::State>, acts2: Seq<M::Action>|
                        valid_path(model, path, acts2) && model.violates(path.last())
                        implies dist[head as int] + 2 <= path.len() by {
                        if acts2.len() <= dist[head as int] {
                            lemma_bfs_cover(model, gs, dist, head as int, path, acts2, acts2.len() as int);
                            let y = choose|y: int| 0 <= y < gs.len() && gs[y] == path[acts2.len() as int] && dist[y] <= acts2.len();
                            assert(!model.violates(gs[y]));
                        }
                    }
                }
                // Reconstruct the path from the initial state.
                let steps = build_counterexample(model, seen, parents, head, action, next, Ghost(dist));
                proof {
                    lemma_counterexample_reaches_error(model, steps@);
                }
                return SafetyResult::Violated(Counterexample { steps });
            }
            if find_index(&seen, &next).is_none() {
                let ghost s0 = seen@;
                let ghost p0 = parents@;
                let ghost nx = next;
                seen.push(next);
                parents.push(Some((head, action)));
                proof {
                    let d0 = dist;
                    dist = dist.push(dist[head as int] + 1);
                    assert forall|x: int| 0 <= x < parents@.len() implies match #[trigger] parents@[x] {
                        None => dist[x] == 0,
                        Some((p, a)) => p < x && dist[x] == dist[p as int] + 1,
                    } by {
                        if x < s0.len() {
                            assert(parents@[x] == p0[x]);
                        }
                    }
                    assert(seen_within(seen@, dist, nx, dist[head as int] + 1)) by {
                        assert(seen@[s0.len() as int] == nx);
                    }
                    assert forall|s2: M::State, dd: int| seen_within(s0, d0, s2, dd) implies #[trigger] seen_within(seen@, dist, s2, dd) by {
                        let y = choose|y: int| 0 <= y < s0.len() && s0[y] == s2 && d0[y] <= dd;
                        assert(seen@[y] == s2);
                    }
                    assert(rset.contains(nx));
                    assert(seen@[s0.len() as int] == nx);
                    assert forall|x: int| 0 <= x < parents@.len() implies match #[trigger] parents@[x] {
                        None => model.is_initial(seen@[x]),
                        Some((p, a)) => p < x && model.enabled(seen@[p as int], a)
                            && model.successor(seen@[p as int], a) == seen@[x],
                    } by {
                        if x < s0.len() {
                            assert(parents@[x] == p0[x]);
                            assert(seen@[x] == s0[x]);
                        }
                    }
                    assert forall|t: M::State| s0.contains(t) implies seen@.contains(t) by {
                        let w = choose|w: int| 0 <= w < s0.len() && s0[w] == t;
                        assert(seen@[w] == t);
                    }
                }
            }
            proof {
                assert(all_acts[j as int] == action);
                assert(seen@.contains(model.successor(cur, action)));
                let y = choose|y: int| 0 <= y < seen@.len() && seen@[y] == model.successor(cur, action);
                assert(seen_within(seen@, dist, model.successor(cur, all_acts[j as int]), dist[head as int] + 1));
            }
            j += 1;
        }
        proof {
            assert forall|x: int, a: M::Action|
                0 <= x < head + 1 && model.enabled(seen@[x], a) implies #[trigger] seen_within(seen@, dist, model.successor(seen@[x], a), dist[x] + 1) by {
                if x == head {
                    let y = choose|y: int| 0 <= y < all_acts.len() && all_acts[y] == a;
                    assert(seen_within(seen@, dist, model.successor(cur, all_acts[y]), dist[head as int] + 1));
                }
            }
            if head + 1 < seen@.len() {
                assert(dist[head as int] <= dist[head as int + 1]);
            }
            assert forall|x: int, a: M::Action|
                0 <= x < head + 1 && model.enabled(seen@[x], a) implies seen@.contains(
                #[trigger] model.successor(seen@[x], a),
            ) by {
                if x == head {
                    let y = choose|y: int| 0 <= y < all_acts.len() && all_acts[y] == a;
                    assert(seen@.contains(model.successor(cur, all_acts[y])));
                }
            }
        }
        head += 1;
    }
    proof {
        let sset = seen@.to_set();
        assert forall|s: M::State| model.is_initial(s) implies #[trigger] sset.contains(s) by {
            assert(seen@.contains(s));
        }
        assert forall|s: M::State, a: M::Action|
            sset.contains(s) && model.enabled(s, a) implies #[trigger] sset.contains(
            model.successor(s, a),
        ) by {
            let x = choose|x: int| 0 <= x < seen@.len() && seen@[x] == s;
            assert(seen@.contains(model.successor(seen@[x], a)));
        }
        assert(closed_set(model, sset));
        assert forall|s: M::State| reachable_state(model, s) implies !model.violates(s) by {
            let (path, acts) = choose|path: Seq<M::State>, acts: Seq<M::Action>|
                valid_path(model, path, acts) && path.last() == s;
            lemma_path_in_closed(model, sset, path, acts, path.len() - 1);
            assert(seen@.contains(s));
        }
    }
    SafetyResult::Safe
}

proof fn lemma_initial_reachable<M: Model>(m: &M, s: M::State)
    requires
        m.is_initial(s),
    ensures
        reachable_state(m, s),
{
    let path = seq![s];
    let acts = Seq::<M::Action>::empty();
    assert(valid_path(m, path, acts));
    assert(path.last() == s);
}

proof fn lemma_step_reachable<M: Model>(m: &M, s: M::State, a: M::Action)
    requires
        reachable_state(m, s),
        m.enabled(s, a),
    ensures
        reachable_state(m, m.successor(s, a)),
{
    let (path, acts) = choose|path: Seq<M::State>, acts: Seq<M::Action>|
        valid_path(m, path, acts) && path.last() == s;
    let p2 = path.push(m.successor(s, a));
    let a2 = acts.push(a);
    assert forall|k: int| 0 <= k < a2.len() implies m.enabled(p2[k], #[trigger] a2[k])
        && m.successor(p2[k], a2[k]) == p2[k + 1] by {
        if k < acts.len() {
            assert(a2[k] == acts[k]);
            assert(p2[k] == path[k]);
            assert(p2[k + 1] == path[k + 1]);
        } else {
            assert(p2[k] == path.last());
        }
    }
    assert(valid_path(m, p2, a2));
    assert(p2.last() == m.successor(s, a));
}

/// Return every state reachable from the initial states (useful for coverage
/// queries and debugging a [`Model`]), each once. The states must compare by
/// identity, and the reachable part of the graph must be finite.
pub fn reachable<M: Model>(model: &M) -> (r: Vec<M::State>)
    requires
        structural_eq::<M::State>(),
        finitely_reachable(model),
    ensures
        no_dups(r@),
        forall|s: M::State| r@.contains(s) <==> reachable_state(model, s),
{
    let ghost rset = choose|r: Set<M::State>| r.finite() && closed_set(model, r);
    let mut seen: Vec<M::State> = Vec::new();
    let mut inits = model.initials();
    let ghost all_inits = inits@;
    let n0 = inits.len();
    let mut i: usize = 0;
    while i < n0
        invariant
            0 <= i <= n0,
            n0 == all_inits.len(),
            forall|s: M::State| all_inits.contains(s) <==> model.is_initial(s),
            inits@ == all_inits.subrange(i as int, n0 as int),
            structural_eq::<M::State>(),
            rset.finite(),
            closed_set(model, rset),
            no_dups(seen@),
            forall|x: int| 0 <= x < seen@.len() ==> rset.contains(#[trigger] seen@[x]),
            forall|x: int| 0 <= x < seen@.len() ==> reachable_state(model, #[trigger] seen@[x]),
            forall|x: int| 0 <= x < i ==> seen@.contains(#[trigger] all_inits[x]),
        decreases n0 - i,
    {
        let init = inits.remove(0);
        proof {
            assert(init == all_inits[i as int]);
            assert(inits@ =~= all_inits.subrange(i + 1, n0 as int));
            assert(all_inits.contains(init));
            assert(model.is_initial(init));
            lemma_initial_reachable(model, init);
        }
        if find_index(&seen, &init).is_none() {
            let ghost s0 = seen@;
            seen.push(init);
            proof {
                assert(seen@.last() == init);
                assert forall|x: int| 0 <= x < i + 1 implies seen@.contains(#[trigger] all_inits[x]) by {
                    if x < i {
                        let w = choose|w: int| 0 <= w < s0.len() && s0[w] == all_inits[x];
                        assert(seen@[w] == all_inits[x]);
                    } else {
                        assert(seen@[s0.len() as int] == all_inits[x]);
                    }
                }
            }
        }
        i += 1;
    }
    let mut head: usize = 0;
    while head < seen.len()
        invariant
            0 <= head <= seen@.len(),
            structural_eq::<M::State>(),
            rset.finite(),
            closed_set(model, rset),
            no_dups(seen@),
            forall|x: int| 0 <= x < seen@.len() ==> rset.contains(#[trigger] seen@[x]),
            forall|x: int| 0 <= x < seen@.len() ==> reachable_state(model, #[trigger] seen@[x]),
            forall|s: M::State| model.is_initial(s) ==> seen@.contains(s),
            forall|x: int, a: M::Action|
                0 <= x < head && model.enabled(seen@[x], a) ==> seen@.contains(
                    #[trigger] model.successor(seen@[x], a),
                ),
        decreases rset.len() - head,
    {
        proof {
            lemma_nodup_len(seen@, rset);
        }
        let mut acts = model.actions(&seen[head]);
        let ghost all_acts = acts@;
        let ghost cur = seen@[head as int];
        let na = acts.len();
        let mut j: usize = 0;
        while j < na
            invariant
                0 <= j <= na,
                na == all_acts.len(),
                head < seen@.len(),
                cur == seen@[head as int],
                reachable_state(model, cur),
                forall|a: M::Action| all_acts.contains(a) <==> model.enabled(cur, a),
                acts@ == all_acts.subrange(j as int, na as int),
                structural_eq::<M::State>(),
                rset.finite(),
                closed_set(model, rset),
                no_dups(seen@),
                forall|x: int| 0 <= x < seen@.len() ==> rset.contains(#[trigger] seen@[x]),
                forall|x: int| 0 <= x < seen@.len() ==> reachable_state(model, #[trigger] seen@[x]),
                forall|s: M::State| model.is_initial(s) ==> seen@.contains(s),
                forall|x: int, a: M::Action|
                    0 <= x < head && model.enabled(seen@[x], a) ==> seen@.contains(
                        #[trigger] model.successor(seen@[x], a),
                    ),
                forall|y: int| 0 <= y < j ==> seen@.contains(#[trigger] model.successor(cur, all_acts[y])),
                        decreases na - j,
        {
            let action = acts.remove(0);
            proof {
                assert(action == all_acts[j as int]);
                assert(acts@ =~= all_acts.subrange(j + 1, na as int));
                assert(all_acts[j as int] == action);
                assert(all_acts.contains(action));
                assert(model.enabled(cur, action));
                lemma_step_reachable(model, cur, action);
            }
            let next = model.step(&seen[head], &action);
            if find_index(&seen, &next).is_none() {
                let ghost s0 = seen@;
                let ghost nx = next;
                seen.push(next);
                proof {
                    assert(rset.contains(nx));
                    assert(seen@[s0.len() as int] == nx);
                    assert forall|t: M::State| s0.contains(t) implies seen@.contains(t) by {
                        let w = choose|w: int| 0 <= w < s0.len() && s0[w] == t;
                        assert(seen@[w] == t);
                    }
                }
            }
            j += 1;
        }
        proof {
            assert forall|x: int, a: M::Action|
                0 <= x < head + 1 && model.enabled(seen@[x], a) implies seen@.contains(
                #[trigger] model.successor(seen@[x], a),
            ) by {
                if x == head {
                    let y = choose|y: int| 0 <= y < all_acts.len() && all_acts[y] == a;
                    assert(seen@.contains(model.successor(cur, all_acts[y])));
                }
            }
        }
        head += 1;
    }
    proof {
        let sset = seen@.to_set();
        assert forall|s: M::State| model.is_initial(s) implies #[trigger] sset.contains(s) by {
            assert(seen@.contains(s));
        }
        assert forall|s: M::State, a: M::Action|
            sset.contains(s) && model.enabled(s, a) implies #[trigger] sset.contains(
            model.successor(s, a),
        ) by {
            let x = choose|x: int| 0 <= x < seen@.len() && seen@[x] == s;
            assert(seen@.contains(model.successor(seen@[x], a)));
        }
        assert forall|s: M::State| seen@.contains(s) <==> reachable_state(model, s) by {
            if reachable_state(model, s) {
                let (path, acts) = choose|path: Seq<M::State>, acts: Seq<M::Action>|
                    valid_path(model, path, acts) && path.last() == s;
                lemma_path_in_closed(model, sset, path, acts, path.len() - 1);
            }
            if seen@.contains(s) {
                let x = choose|x: int| 0 <= x < seen@.len() && seen@[x] == s;
                assert(reachable_state(model, seen@[x]));
            }
        }
    }
    seen
}

} // verus!
