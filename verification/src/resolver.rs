//! The chip resolver: a memoized depth-first resolution over the chip
//! reference graph, driven as an explicit-stack state machine.
//!
//! The machine owns the chip graph of one project-resolution pass.  It does
//! no storage access itself: whenever it needs a chip definition it returns
//! [`ResolveStep::NeedDefinition`] and the caller answers through
//! [`Resolver::provide`] with the load result.  This keeps every decision of
//! the traversal verified while the caller performs the reads, and it bounds
//! the recursion depth by an explicit frame stack instead of the native call
//! stack.
//!
//! A chip is marked in-progress when its definition is requested and
//! resolved when its cost commits; re-entering an in-progress chip is
//! reported as a cyclic definition instead of recursing forever.  On any
//! failure the machine unwinds: every in-progress entry returns to the
//! unvisited placeholder state, so a chip whose cost was never fully
//! computed is never reported as resolved, and a later pass may retry it.

use vstd::prelude::*;

use crate::catalog::catalog_seeded;
use crate::chip::{is_catalog_name, nand_name, sat_add, sat_add_counts, Chip, ChipState};
use crate::graph::ChipGraph;

verus! {

/// Why the resolution of a chip failed; each variant names the chip.
#[derive(Debug, PartialEq, Eq)]
pub enum ResolutionError {
    /// No definition exists in storage for this non-primitive chip.
    DefinitionNotFound(String),
    /// The definition exists but its sub-chip list is absent, not a
    /// sequence, not parseable, or an entry of it lacks a name.
    MalformedDefinition(String),
    /// The chip transitively references itself.
    CyclicDefinition(String),
}

/// What the resolution machine asks for or reports after each step.
pub enum ResolveStep {
    /// The requested root chip is resolved in the graph.
    Done,
    /// The machine needs the named chip's definition; answer with
    /// [`Resolver::provide`].
    NeedDefinition(String),
    /// Resolution failed; the machine is idle again and every incompletely
    /// resolved chip is back to unvisited.
    Failed(ResolutionError),
}

/// The caller's answer to a definition request.
pub enum DefLookup {
    /// No definition file exists for the chip.
    NotFound,
    /// A definition exists but is malformed.
    Malformed,
    /// The chip's declared sub-chip names, in declaration order, with
    /// repetition kept.
    Found(Vec<String>),
}

/// How many gates `name` is priced at in `g`; 0 when absent.
pub open spec fn cost_in(g: Map<Seq<char>, Chip>, name: Seq<char>) -> int {
    if g.contains_key(name) {
        g[name].gate_count as int
    } else {
        0
    }
}

/// Summed prices of `subs` in `g`, in order, with repetition kept,
/// saturating at `usize::MAX`.
pub open spec fn sat_sum(g: Map<Seq<char>, Chip>, subs: Seq<Seq<char>>) -> int
    decreases subs.len(),
{
    if subs.len() == 0 {
        0
    } else {
        sat_add(sat_sum(g, subs.drop_last()), cost_in(g, subs.last()))
    }
}

/// Every name of `subs` has a resolved entry in `g`.
pub open spec fn subs_resolved(g: Map<Seq<char>, Chip>, subs: Seq<Seq<char>>) -> bool {
    forall|j: int|
        0 <= j < subs.len() ==> g.contains_key(#[trigger] subs[j]) && g[subs[j]].state
            == ChipState::Resolved
}

/// Every resolved chip with a recorded definition costs exactly the sum of
/// its recorded sub-chips' costs.
pub open spec fn resolved_consistent(
    g: Map<Seq<char>, Chip>,
    defs: Map<Seq<char>, Seq<Seq<char>>>,
) -> bool {
    forall|k: Seq<char>|
        #[trigger] defs.contains_key(k) && g.contains_key(k) && g[k].state == ChipState::Resolved
            ==> subs_resolved(g, defs[k]) && g[k].gate_count as int == sat_sum(g, defs[k])
}

/// Every chip resolved in `g1` is resolved in `g2` with the same cost:
/// resolution never re-opens or changes a committed entry.
pub open spec fn resolved_preserved(g1: Map<Seq<char>, Chip>, g2: Map<Seq<char>, Chip>) -> bool {
    forall|k: Seq<char>|
        #[trigger] g1.contains_key(k) && g1[k].state == ChipState::Resolved ==> g2.contains_key(k)
            && g2[k] == g1[k]
}

/// No chip of `g` is in progress: the graph is at rest between resolutions.
pub open spec fn no_in_progress(g: Map<Seq<char>, Chip>) -> bool {
    forall|k: Seq<char>|
        g.contains_key(k) ==> (#[trigger] g[k]).state != ChipState::InProgress
}

/// What the machine does at its next pause, as replayed by [`sim`].
pub enum Outcome {
    /// Every suspended frame commits: the resolution finishes.
    Finished,
    /// The named chip's definition is requested next.
    Request(Seq<char>),
    /// The named chip is re-entered while in progress: a cyclic
    /// definition is reported.
    CycleAt(Seq<char>),
}

/// The resolution state of every chip of `g`, costs forgotten.
pub open spec fn states_of(g: Map<Seq<char>, Chip>) -> Map<Seq<char>, ChipState> {
    Map::new(|k: Seq<char>| g.contains_key(k), |k: Seq<char>| g[k].state)
}

/// Names still to price, summed over the suspended work.
pub open spec fn work_remaining(work: Seq<(Seq<char>, Seq<Seq<char>>)>) -> nat
    decreases work.len(),
{
    if work.len() == 0 {
        0nat
    } else {
        work_remaining(work.drop_last()) + work.last().1.len()
    }
}

/// Replay of the machine's run over chip states alone.  `work` lists the
/// suspended frames outermost first, each with its remaining declared
/// sub-chips; the last element is the innermost frame, processed first.
/// The machine consumes resolved sub-chips, commits an exhausted frame
/// (its chip becomes resolved), requests the first sub-chip that is
/// neither resolved nor in progress, and reports the first one found in
/// progress as cyclic.  This function decides which of the three it is.
pub open spec fn sim(
    states: Map<Seq<char>, ChipState>,
    work: Seq<(Seq<char>, Seq<Seq<char>>)>,
) -> Outcome
    decreases work_remaining(work), work.len(),
    via sim_decreases
{
    if work.len() == 0 {
        Outcome::Finished
    } else {
        let name = work.last().0;
        let rem = work.last().1;
        if rem.len() == 0 {
            sim(states.insert(name, ChipState::Resolved), work.drop_last())
        } else {
            let s = rem[0];
            if states.contains_key(s) && states[s] == ChipState::Resolved {
                sim(states, work.update(work.len() - 1, (name, rem.drop_first())))
            } else if states.contains_key(s) && states[s] == ChipState::InProgress {
                Outcome::CycleAt(s)
            } else {
                Outcome::Request(s)
            }
        }
    }
}

#[via_fn]
proof fn sim_decreases(states: Map<Seq<char>, ChipState>, work: Seq<(Seq<char>, Seq<Seq<char>>)>) {
    if work.len() > 0 {
        let name = work.last().0;
        let rem = work.last().1;
        if rem.len() > 0 {
            let updated = work.update(work.len() - 1, (name, rem.drop_first()));
            assert(updated.drop_last() =~= work.drop_last());
            assert(updated.last() == (name, rem.drop_first()));
            assert(work_remaining(updated) == work_remaining(work.drop_last()) + rem.len() - 1);
        }
    }
}

/// After a failure the machine has unwound cleanly: the graph keeps
/// exactly its keys, every chip that was not in progress is untouched,
/// and the pending root is back to the unvisited zero-cost placeholder —
/// a chip whose cost was never fully computed is never reported resolved.
pub open spec fn failure_unwound(pre: &Resolver, post: &Resolver) -> bool {
    &&& forall|k: Seq<char>| #[trigger]
        post.graph_view().contains_key(k) <==> pre.graph_view().contains_key(k)
    &&& forall|k: Seq<char>|
        pre.graph_view().contains_key(k) && pre.graph_view()[k].state != ChipState::InProgress
            ==> #[trigger] post.graph_view()[k] == pre.graph_view()[k]
    &&& pre.pending_root() matches Option::Some(r) ==> post.graph_view().contains_key(r)
        && post.graph_view()[r] == (Chip { gate_count: 0, state: ChipState::Unvisited })
}

/// If `g1` and `g2` price every name of `subs` alike, the sums agree.
proof fn lemma_sat_sum_congruence(
    g1: Map<Seq<char>, Chip>,
    g2: Map<Seq<char>, Chip>,
    subs: Seq<Seq<char>>,
)
    requires
        forall|j: int| 0 <= j < subs.len() ==> cost_in(g1, #[trigger] subs[j]) == cost_in(
            g2,
            subs[j],
        ),
    ensures
        sat_sum(g1, subs) == sat_sum(g2, subs),
    decreases subs.len(),
{
    if subs.len() > 0 {
        assert(forall|j: int| 0 <= j < subs.drop_last().len() ==> #[trigger] subs.drop_last()[j]
            == subs[j]);
        lemma_sat_sum_congruence(g1, g2, subs.drop_last());
    }
}

/// Overwriting a non-resolved entry with another non-resolved entry keeps
/// the resolved entries consistent with the recorded definitions.
proof fn lemma_rc_put_nonresolved(
    g: Map<Seq<char>, Chip>,
    defs: Map<Seq<char>, Seq<Seq<char>>>,
    name: Seq<char>,
    chip: Chip,
)
    requires
        resolved_consistent(g, defs),
        g.contains_key(name) ==> g[name].state != ChipState::Resolved,
        chip.state != ChipState::Resolved,
    ensures
        resolved_consistent(g.insert(name, chip), defs),
{
    let g2 = g.insert(name, chip);
    assert forall|k: Seq<char>|
        #[trigger] defs.contains_key(k) && g2.contains_key(k) && g2[k].state
            == ChipState::Resolved implies subs_resolved(g2, defs[k]) && g2[k].gate_count as int
        == sat_sum(g2, defs[k]) by {
        assert(k != name);
        assert(subs_resolved(g, defs[k]));
        assert forall|j: int| 0 <= j < defs[k].len() implies g2.contains_key(
            #[trigger] defs[k][j],
        ) && g2[defs[k][j]].state == ChipState::Resolved by {
            assert(defs[k][j] != name);
        }
        assert forall|j: int| 0 <= j < defs[k].len() implies cost_in(g, #[trigger] defs[k][j])
            == cost_in(g2, defs[k][j]) by {
            assert(defs[k][j] != name);
        }
        lemma_sat_sum_congruence(g, g2, defs[k]);
    }
}

/// Recording a definition for a chip that is not resolved keeps the
/// resolved entries consistent.
proof fn lemma_rc_defs_insert(
    g: Map<Seq<char>, Chip>,
    defs: Map<Seq<char>, Seq<Seq<char>>>,
    name: Seq<char>,
    subs: Seq<Seq<char>>,
)
    requires
        resolved_consistent(g, defs),
        g.contains_key(name) ==> g[name].state != ChipState::Resolved,
    ensures
        resolved_consistent(g, defs.insert(name, subs)),
{
    let d2 = defs.insert(name, subs);
    assert forall|k: Seq<char>|
        #[trigger] d2.contains_key(k) && g.contains_key(k) && g[k].state
            == ChipState::Resolved implies subs_resolved(g, d2[k]) && g[k].gate_count as int
        == sat_sum(g, d2[k]) by {
        assert(k != name);
        assert(d2[k] == defs[k]);
    }
}

/// Committing an in-progress chip at the sum of its recorded sub-chips'
/// costs keeps the resolved entries consistent.
proof fn lemma_rc_commit(
    g: Map<Seq<char>, Chip>,
    defs: Map<Seq<char>, Seq<Seq<char>>>,
    name: Seq<char>,
    count: usize,
)
    requires
        resolved_consistent(g, defs),
        g.contains_key(name),
        g[name].state == ChipState::InProgress,
        defs.contains_key(name),
        subs_resolved(g, defs[name]),
        count as int == sat_sum(g, defs[name]),
    ensures
        resolved_consistent(
            g.insert(name, Chip { gate_count: count, state: ChipState::Resolved }),
            defs,
        ),
{
    let g2 = g.insert(name, Chip { gate_count: count, state: ChipState::Resolved });
    assert forall|k: Seq<char>|
        #[trigger] defs.contains_key(k) && g2.contains_key(k) && g2[k].state
            == ChipState::Resolved implies subs_resolved(g2, defs[k]) && g2[k].gate_count as int
        == sat_sum(g2, defs[k]) by {
        if k == name {
            assert forall|j: int| 0 <= j < defs[name].len() implies cost_in(
                g,
                #[trigger] defs[name][j],
            ) == cost_in(g2, defs[name][j]) by {
                assert(defs[name][j] != name);
            }
            lemma_sat_sum_congruence(g, g2, defs[name]);
        } else {
            assert(subs_resolved(g, defs[k]));
            assert forall|j: int| 0 <= j < defs[k].len() implies cost_in(g, #[trigger] defs[k][j])
                == cost_in(g2, defs[k][j]) by {
                assert(defs[k][j] != name);
            }
            lemma_sat_sum_congruence(g, g2, defs[k]);
        }
    }
}

/// One suspended resolution: the chip being resolved, its declared
/// sub-chips, how many of them are already priced, and the running sum.
struct Frame {
    name: String,
    subs: Vec<String>,
    next: usize,
    acc: usize,
}

/// Invariant of one suspended frame against the graph and the recorded
/// definitions.
spec fn frame_inv(g: Map<Seq<char>, Chip>, defs: Map<Seq<char>, Seq<Seq<char>>>, f: Frame) -> bool {
    &&& g.contains_key(f.name@)
    &&& g[f.name@].state == ChipState::InProgress
    &&& f.next <= f.subs@.len()
    &&& forall|j: int|
        0 <= j < f.next ==> g.contains_key((#[trigger] f.subs@[j])@) && g[f.subs@[j]@].state
            == ChipState::Resolved
    &&& f.acc as int == sat_sum(g, f.subs.deep_view().take(f.next as int))
    &&& defs.contains_key(f.name@)
    &&& defs[f.name@] == f.subs.deep_view()
}

/// Whether the in-progress chip `k` is accounted for by a suspended frame
/// or by the awaited definition request.
spec fn in_progress_covered(stack: Seq<Frame>, awaiting: Option<String>, k: Seq<char>) -> bool {
    (exists|i: int| 0 <= i < stack.len() && (#[trigger] stack[i]).name@ == k) || (match awaiting {
        Option::Some(n) => n@ == k,
        Option::None => false,
    })
}

/// Unfinished work of one frame, for termination.
spec fn frame_work(f: Frame) -> nat {
    if f.next <= f.subs@.len() {
        (f.subs@.len() - f.next) as nat
    } else {
        0
    }
}

/// Unfinished work of the whole stack, for termination.
spec fn frames_measure(s: Seq<Frame>) -> nat
    decreases s.len(),
{
    if s.len() == 0 {
        0nat
    } else {
        frames_measure(s.drop_last()) + frame_work(s.last()) + 1
    }
}

/// The resolution machine of one project scan: the chip graph, the
/// suspended frames, and the chip whose definition is awaited, if any.
pub struct Resolver {
    graph: ChipGraph,
    stack: Vec<Frame>,
    awaiting: Option<String>,
    defs: Ghost<Map<Seq<char>, Seq<Seq<char>>>>,
}

impl Resolver {
    /// The chip graph, as a map from name to chip.
    pub closed spec fn graph_view(&self) -> Map<Seq<char>, Chip> {
        self.graph@
    }

    /// The definitions accepted so far, chip name to declared sub-chip
    /// names.
    pub closed spec fn defs_view(&self) -> Map<Seq<char>, Seq<Seq<char>>> {
        self.defs@
    }

    /// The chip whose definition the machine is waiting for, if any.
    pub closed spec fn awaiting_view(&self) -> Option<Seq<char>> {
        match self.awaiting {
            Option::Some(ref n) => Option::Some(n@),
            Option::None => Option::None,
        }
    }

    /// The suspended work: each frame's chip with its remaining declared
    /// sub-chips, outermost frame first.  [`sim`] over this view and the
    /// graph's states decides the machine's next pause.
    pub closed spec fn pending_work(&self) -> Seq<(Seq<char>, Seq<Seq<char>>)> {
        self.stack@.map(|i: int, f: Frame| (f.name@, f.subs.deep_view().skip(f.next as int)))
    }

    /// The machine is between resolutions: no suspended frame, no awaited
    /// definition.
    pub closed spec fn idle(&self) -> bool {
        self.stack@.len() == 0 && self.awaiting is None
    }

    /// The root chip of the resolution in flight, if one is in flight.
    pub closed spec fn pending_root(&self) -> Option<Seq<char>> {
        if self.stack@.len() > 0 {
            Option::Some(self.stack@[0].name@)
        } else {
            self.awaiting_view()
        }
    }

    /// Invariant of the machine.
    pub closed spec fn inv(&self) -> bool {
        &&& self.graph.wf()
        &&& match self.awaiting {
            Option::Some(ref n) => self.graph@.contains_key(n@) && self.graph@[n@].state
                == ChipState::InProgress && (forall|i: int|
                0 <= i < self.stack@.len() ==> (#[trigger] self.stack@[i]).name@ != n@),
            Option::None => true,
        }
        &&& forall|i: int|
            0 <= i < self.stack@.len() ==> frame_inv(
                self.graph@,
                self.defs@,
                #[trigger] self.stack@[i],
            )
        &&& forall|i: int, j: int|
            0 <= i < j < self.stack@.len() ==> (#[trigger] self.stack@[i]).name@
                != (#[trigger] self.stack@[j]).name@
        &&& forall|k: Seq<char>|
            self.graph@.contains_key(k) && (#[trigger] self.graph@[k]).state
                == ChipState::InProgress ==> in_progress_covered(self.stack@, self.awaiting, k)
        &&& resolved_consistent(self.graph@, self.defs@)
    }

    /// A fresh machine over a seeded graph at rest.
    pub fn new(graph: ChipGraph) -> (r: Resolver)
        requires
            graph.wf(),
            no_in_progress(graph@),
        ensures
            r.inv(),
            r.idle(),
            r.graph_view() == graph@,
            r.defs_view() == Map::<Seq<char>, Seq<Seq<char>>>::empty(),
            r.pending_root() is None,
    {
        Resolver {
            graph,
            stack: Vec::new(),
            awaiting: Option::None,
            defs: Ghost(Map::empty()),
        }
    }

    /// Borrow the chip graph.
    pub fn chip_map(&self) -> (g: &ChipGraph)
        ensures
            g@ == self.graph_view(),
            self.inv() ==> g.wf(),
    {
        &self.graph
    }

    /// Surrender the chip graph, ending the pass.
    pub fn into_chip_map(self) -> (g: ChipGraph)
        ensures
            g@ == self.graph_view(),
            self.inv() ==> g.wf(),
    {
        self.graph
    }

    /// Begin resolving `root`.  A chip already resolved is a memo hit: the
    /// machine reports `Done` at once, asks for no definition, and changes
    /// nothing.  Otherwise the chip is marked in progress and its
    /// definition is requested; a definition is only ever requested for a
    /// chip that is not resolved.
    pub fn start(&mut self, root: &String) -> (step: ResolveStep)
        requires
            old(self).inv(),
            old(self).idle(),
        ensures
            final(self).inv(),
            final(self).defs_view() == old(self).defs_view(),
            resolved_preserved(old(self).graph_view(), final(self).graph_view()),
            match step {
                ResolveStep::Done => {
                    &&& final(self).graph_view() == old(self).graph_view()
                    &&& final(self).idle()
                    &&& old(self).graph_view().contains_key(root@)
                    &&& old(self).graph_view()[root@].state == ChipState::Resolved
                    &&& final(self).pending_root() is None
                },
                ResolveStep::NeedDefinition(m) => {
                    &&& m@ == root@
                    &&& old(self).graph_view().contains_key(root@)
                        ==> old(self).graph_view()[root@].state == ChipState::Unvisited
                    &&& final(self).graph_view() == old(self).graph_view().insert(
                        root@,
                        (Chip { gate_count: 0, state: ChipState::InProgress }),
                    )
                    &&& final(self).awaiting_view() == Option::Some(root@)
                    &&& final(self).pending_root() == Option::Some(root@)
                    &&& final(self).pending_work() == Seq::<(Seq<char>, Seq<Seq<char>>)>::empty()
                },
                ResolveStep::Failed(_) => false,
            },
    {
        proof {
            assert(self.pending_work() =~= Seq::<(Seq<char>, Seq<Seq<char>>)>::empty());
        }
        let hit = match self.graph.get(root) {
            Option::Some(c) => c.state == ChipState::Resolved,
            Option::None => false,
        };
        if hit {
            ResolveStep::Done
        } else {
            proof {
                lemma_rc_put_nonresolved(
                    self.graph@,
                    self.defs@,
                    root@,
                    Chip { gate_count: 0, state: ChipState::InProgress },
                );
            }
            self.graph.put(root.clone(), Chip { gate_count: 0, state: ChipState::InProgress });
            self.awaiting = Option::Some(root.clone());
            proof {
                assert forall|k: Seq<char>|
                    old(self).graph@.contains_key(k) implies (#[trigger] old(self).graph@[k]).state
                    != ChipState::InProgress by {
                    if old(self).graph@[k].state == ChipState::InProgress {
                        assert(in_progress_covered(old(self).stack@, old(self).awaiting, k));
                        assert(false);
                    }
                }
                assert(self.inv());
            }
            ResolveStep::NeedDefinition(root.clone())
        }
    }

    /// Answer the awaited definition request.  A missing or malformed
    /// definition fails the pass with the matching error and unwinds, the
    /// awaited chip ending unvisited.  A found definition is recorded and
    /// resolution proceeds: the machine may request further definitions,
    /// fail (on a cycle re-entering an in-progress chip), or finish with
    /// the pending root resolved.
    pub fn provide(&mut self, def: DefLookup) -> (step: ResolveStep)
        requires
            old(self).inv(),
            old(self).awaiting_view() is Some,
        ensures
            final(self).inv(),
            resolved_preserved(old(self).graph_view(), final(self).graph_view()),
            match old(self).awaiting_view() {
                Option::Some(n) => match def {
                    DefLookup::NotFound => {
                        &&& final(self).defs_view() == old(self).defs_view()
                        &&& final(self).idle()
                        &&& no_in_progress(final(self).graph_view())
                        &&& final(self).graph_view().contains_key(n)
                        &&& final(self).graph_view()[n]
                            == (Chip { gate_count: 0, state: ChipState::Unvisited })
                        &&& failure_unwound(old(self), final(self))
                        &&& match step {
                            ResolveStep::Failed(e) => e
                                matches ResolutionError::DefinitionNotFound(s) && s@ == n,
                            _ => false,
                        }
                    },
                    DefLookup::Malformed => {
                        &&& final(self).defs_view() == old(self).defs_view()
                        &&& final(self).idle()
                        &&& no_in_progress(final(self).graph_view())
                        &&& final(self).graph_view().contains_key(n)
                        &&& final(self).graph_view()[n]
                            == (Chip { gate_count: 0, state: ChipState::Unvisited })
                        &&& failure_unwound(old(self), final(self))
                        &&& match step {
                            ResolveStep::Failed(e) => e
                                matches ResolutionError::MalformedDefinition(s) && s@ == n,
                            _ => false,
                        }
                    },
                    DefLookup::Found(subs) => {
                        &&& final(self).defs_view()
                            == old(self).defs_view().insert(n, subs.deep_view())
                        &&& match step {
                            ResolveStep::Done => {
                                &&& final(self).idle()
                                &&& no_in_progress(final(self).graph_view())
                                &&& old(self).pending_root() matches Option::Some(r)
                                    ==> final(self).graph_view().contains_key(r)
                                        && final(self).graph_view()[r].state
                                        == ChipState::Resolved
                                &&& sim(
                                    states_of(old(self).graph_view()),
                                    old(self).pending_work().push((n, subs.deep_view())),
                                ) == Outcome::Finished
                            },
                            ResolveStep::NeedDefinition(m) => {
                                &&& old(self).graph_view().contains_key(m@)
                                    ==> old(self).graph_view()[m@].state != ChipState::Resolved
                                &&& final(self).awaiting_view() == Option::Some(m@)
                                &&& final(self).graph_view().contains_key(m@)
                                &&& final(self).graph_view()[m@]
                                    == (Chip { gate_count: 0, state: ChipState::InProgress })
                                &&& final(self).pending_root() == old(self).pending_root()
                                &&& sim(
                                    states_of(old(self).graph_view()),
                                    old(self).pending_work().push((n, subs.deep_view())),
                                ) == Outcome::Request(m@)
                            },
                            ResolveStep::Failed(e) => {
                                &&& final(self).idle()
                                &&& no_in_progress(final(self).graph_view())
                                &&& e matches ResolutionError::CyclicDefinition(s)
                                &&& e matches ResolutionError::CyclicDefinition(s)
                                    ==> old(self).graph_view().contains_key(s@)
                                        && old(self).graph_view()[s@].state
                                        == ChipState::InProgress && sim(
                                    states_of(old(self).graph_view()),
                                    old(self).pending_work().push((n, subs.deep_view())),
                                ) == Outcome::CycleAt(s@)
                                &&& failure_unwound(old(self), final(self))
                            },
                        }
                    },
                },
                Option::None => false,
            },
    {
        let name = match self.awaiting.take() {
            Option::Some(n) => n,
            Option::None => vstd::pervasive::unreached(),
        };
        let ghost nv = name@;
        match def {
            DefLookup::NotFound => {
                proof {
                    lemma_rc_put_nonresolved(
                        self.graph@,
                        self.defs@,
                        nv,
                        Chip { gate_count: 0, state: ChipState::Unvisited },
                    );
                }
                self.graph.put(name.clone(), Chip { gate_count: 0, state: ChipState::Unvisited });
                let ghost gmid = self.graph@;
                proof {
                    assert forall|k: Seq<char>|
                        self.graph@.contains_key(k) && (#[trigger] self.graph@[k]).state
                            == ChipState::InProgress implies exists|i: int|
                        0 <= i < self.stack@.len() && (#[trigger] self.stack@[i]).name@ == k by {
                        assert(k != nv);
                        assert(in_progress_covered(self.stack@, old(self).awaiting, k));
                    }
                }
                let step = self.fail(ResolutionError::DefinitionNotFound(name));
                proof {
                    assert(old(self).graph@.contains_key(nv) && old(self).graph@[nv].state
                        == ChipState::InProgress);
                    assert forall|k: Seq<char>|
                        (#[trigger] self.graph@.contains_key(k) <==> old(self).graph@.contains_key(
                            k,
                        )) by {
                        assert(gmid.contains_key(k) <==> old(self).graph@.contains_key(k));
                    }
                    assert forall|k: Seq<char>|
                        old(self).graph@.contains_key(k) && old(self).graph@[k].state
                            != ChipState::InProgress implies #[trigger] self.graph@[k] == old(
                            self,
                        ).graph@[k] by {
                        assert(k != nv);
                        assert(gmid[k] == old(self).graph@[k]);
                        assert(gmid[k].state != ChipState::InProgress);
                    }
                    match old(self).pending_root() {
                        Option::Some(r) => {
                            if old(self).stack@.len() > 0 {
                                assert(old(self).stack@[0].name@ == r);
                                assert(gmid.contains_key(r) && gmid[r].state
                                    == ChipState::InProgress);
                                assert(self.graph@[r] == (Chip {
                                    gate_count: 0,
                                    state: ChipState::Unvisited,
                                }));
                            } else {
                                assert(r == nv);
                            }
                        }
                        Option::None => {}
                    }
                }
                step
            }
            DefLookup::Malformed => {
                proof {
                    lemma_rc_put_nonresolved(
                        self.graph@,
                        self.defs@,
                        nv,
                        Chip { gate_count: 0, state: ChipState::Unvisited },
                    );
                }
                self.graph.put(name.clone(), Chip { gate_count: 0, state: ChipState::Unvisited });
                let ghost gmid = self.graph@;
                proof {
                    assert forall|k: Seq<char>|
                        self.graph@.contains_key(k) && (#[trigger] self.graph@[k]).state
                            == ChipState::InProgress implies exists|i: int|
                        0 <= i < self.stack@.len() && (#[trigger] self.stack@[i]).name@ == k by {
                        assert(k != nv);
                        assert(in_progress_covered(self.stack@, old(self).awaiting, k));
                    }
                }
                let step = self.fail(ResolutionError::MalformedDefinition(name));
                proof {
                    assert(old(self).graph@.contains_key(nv) && old(self).graph@[nv].state
                        == ChipState::InProgress);
                    assert forall|k: Seq<char>|
                        (#[trigger] self.graph@.contains_key(k) <==> old(self).graph@.contains_key(
                            k,
                        )) by {
                        assert(gmid.contains_key(k) <==> old(self).graph@.contains_key(k));
                    }
                    assert forall|k: Seq<char>|
                        old(self).graph@.contains_key(k) && old(self).graph@[k].state
                            != ChipState::InProgress implies #[trigger] self.graph@[k] == old(
                            self,
                        ).graph@[k] by {
                        assert(k != nv);
                        assert(gmid[k] == old(self).graph@[k]);
                        assert(gmid[k].state != ChipState::InProgress);
                    }
                    match old(self).pending_root() {
                        Option::Some(r) => {
                            if old(self).stack@.len() > 0 {
                                assert(old(self).stack@[0].name@ == r);
                                assert(gmid.contains_key(r) && gmid[r].state
                                    == ChipState::InProgress);
                                assert(self.graph@[r] == (Chip {
                                    gate_count: 0,
                                    state: ChipState::Unvisited,
                                }));
                            } else {
                                assert(r == nv);
                            }
                        }
                        Option::None => {}
                    }
                }
                step
            }
            DefLookup::Found(subs) => {
                proof {
                    lemma_rc_defs_insert(self.graph@, self.defs@, nv, subs.deep_view());
                }
                self.defs = Ghost(self.defs@.insert(nv, subs.deep_view()));
                let ghost dv = subs.deep_view();
                let ghost old_stack = self.stack@;
                self.stack.push(Frame { name, subs, next: 0, acc: 0 });
                proof {
                    assert(dv.take(0) =~= Seq::<Seq<char>>::empty());
                    let nf = self.stack@.last();
                    assert(nf.subs.deep_view().take(0int) =~= Seq::<Seq<char>>::empty());
                    assert(frame_inv(self.graph@, self.defs@, nf));
                    assert forall|i: int| 0 <= i < self.stack@.len() implies frame_inv(
                        self.graph@,
                        self.defs@,
                        #[trigger] self.stack@[i],
                    ) by {
                        if i < self.stack@.len() - 1 {
                            assert(self.stack@[i] == old_stack[i]);
                            assert(self.stack@[i].name@ != nv);
                            assert(self.defs@[self.stack@[i].name@]
                                == old(self).defs@[self.stack@[i].name@]);
                        }
                    }
                    assert forall|k: Seq<char>|
                        self.graph@.contains_key(k) && (#[trigger] self.graph@[k]).state
                            == ChipState::InProgress implies in_progress_covered(
                        self.stack@,
                        self.awaiting,
                        k,
                    ) by {
                        assert(in_progress_covered(old_stack, old(self).awaiting, k));
                        if k == nv {
                            assert(self.stack@[self.stack@.len() - 1].name@ == k);
                        } else {
                            let i = choose|i: int|
                                0 <= i < old_stack.len() && (#[trigger] old_stack[i]).name@ == k;
                            assert(self.stack@[i].name@ == k);
                        }
                    }
                    assert(self.inv());
                    assert(self.pending_root() == old(self).pending_root());
                    assert(nf.subs.deep_view().skip(0) =~= dv);
                    assert(self.pending_work() =~= old(self).pending_work().push((nv, dv)));
                }
                self.advance()
            }
        }
    }

    /// Unwind after a failure: drop every suspended frame and return each
    /// in-progress chip to the unvisited placeholder state, so that no
    /// partially computed cost survives.
    fn fail(&mut self, err: ResolutionError) -> (step: ResolveStep)
        requires
            old(self).graph.wf(),
            old(self).awaiting is None,
            resolved_consistent(old(self).graph@, old(self).defs@),
            forall|i: int|
                0 <= i < old(self).stack@.len() ==> old(self).graph@.contains_key(
                    (#[trigger] old(self).stack@[i]).name@,
                ) && old(self).graph@[old(self).stack@[i].name@].state == ChipState::InProgress,
            forall|k: Seq<char>|
                old(self).graph@.contains_key(k) && (#[trigger] old(self).graph@[k]).state
                    == ChipState::InProgress ==> exists|i: int|
                    0 <= i < old(self).stack@.len() && (#[trigger] old(self).stack@[i]).name@ == k,
        ensures
            final(self).inv(),
            final(self).idle(),
            final(self).defs_view() == old(self).defs@,
            step == ResolveStep::Failed(err),
            forall|k: Seq<char>| #[trigger]
                final(self).graph_view().contains_key(k) <==> old(self).graph@.contains_key(k),
            forall|k: Seq<char>|
                old(self).graph@.contains_key(k) ==> #[trigger] final(self).graph_view()[k] == (
                if old(self).graph@[k].state == ChipState::InProgress {
                    Chip { gate_count: 0, state: ChipState::Unvisited }
                } else {
                    old(self).graph@[k]
                }),
            no_in_progress(final(self).graph_view()),
            resolved_preserved(old(self).graph@, final(self).graph_view()),
    {
        while self.stack.len() != 0
            invariant
                self.graph.wf(),
                self.awaiting is None,
                self.defs@ == old(self).defs@,
                resolved_consistent(self.graph@, self.defs@),
                forall|i: int|
                    0 <= i < self.stack@.len() ==> old(self).graph@.contains_key(
                        (#[trigger] self.stack@[i]).name@,
                    ) && old(self).graph@[self.stack@[i].name@].state == ChipState::InProgress,
                forall|k: Seq<char>| #[trigger]
                    self.graph@.contains_key(k) <==> old(self).graph@.contains_key(k),
                forall|k: Seq<char>|
                    old(self).graph@.contains_key(k) && old(self).graph@[k].state
                        != ChipState::InProgress ==> #[trigger] self.graph@[k] == old(
                        self,
                    ).graph@[k],
                forall|k: Seq<char>|
                    old(self).graph@.contains_key(k) && old(self).graph@[k].state
                        == ChipState::InProgress ==> (#[trigger] self.graph@[k] == old(
                        self,
                    ).graph@[k]) || self.graph@[k] == (Chip {
                        gate_count: 0,
                        state: ChipState::Unvisited,
                    }),
                forall|k: Seq<char>|
                    self.graph@.contains_key(k) && (#[trigger] self.graph@[k]).state
                        == ChipState::InProgress ==> exists|i: int|
                        0 <= i < self.stack@.len() && (#[trigger] self.stack@[i]).name@ == k,
            decreases self.stack@.len(),
        {
            let ghost pre_stack = self.stack@;
            let ghost pre_graph = self.graph@;
            let popped = self.stack.pop();
            match popped {
                Option::Some(f) => {
                    proof {
                        assert(pre_stack[pre_stack.len() - 1] == f);
                        assert(self.graph@[f.name@].state != ChipState::Resolved);
                        lemma_rc_put_nonresolved(
                            self.graph@,
                            self.defs@,
                            f.name@,
                            Chip { gate_count: 0, state: ChipState::Unvisited },
                        );
                    }
                    self.graph.put(f.name, Chip { gate_count: 0, state: ChipState::Unvisited });
                    proof {
                        assert forall|k: Seq<char>|
                            self.graph@.contains_key(k) && (#[trigger] self.graph@[k]).state
                                == ChipState::InProgress implies exists|i: int|
                            0 <= i < self.stack@.len() && (#[trigger] self.stack@[i]).name@
                                == k by {
                            assert(k != f.name@);
                            assert(pre_graph[k].state == ChipState::InProgress);
                            let i = choose|i: int|
                                0 <= i < pre_stack.len() && (#[trigger] pre_stack[i]).name@ == k;
                            assert(i < pre_stack.len() - 1);
                            assert(self.stack@[i].name@ == k);
                        }
                    }
                }
                Option::None => {
                    proof {
                        assert(false);
                    }
                }
            }
        }
        proof {
            assert forall|k: Seq<char>|
                old(self).graph@.contains_key(k) implies #[trigger] self.graph@[k] == (
            if old(self).graph@[k].state == ChipState::InProgress {
                Chip { gate_count: 0, state: ChipState::Unvisited }
            } else {
                old(self).graph@[k]
            }) by {
                if old(self).graph@[k].state == ChipState::InProgress {
                    if self.graph@[k] == old(self).graph@[k] {
                        assert(self.graph@[k].state == ChipState::InProgress);
                        assert(false);
                    }
                }
            }
        }
        ResolveStep::Failed(err)
    }

    /// Run the suspended frames until the machine needs a definition,
    /// detects a cycle, or empties the stack with the pending root
    /// resolved.
    fn advance(&mut self) -> (step: ResolveStep)
        requires
            old(self).inv(),
            old(self).awaiting is None,
        ensures
            final(self).inv(),
            final(self).defs_view() == old(self).defs_view(),
            resolved_preserved(old(self).graph_view(), final(self).graph_view()),
            forall|k: Seq<char>|
                old(self).graph_view().contains_key(k)
                    ==> #[trigger] final(self).graph_view().contains_key(k),
            match step {
                ResolveStep::Done => {
                    &&& final(self).idle()
                    &&& no_in_progress(final(self).graph_view())
                    &&& old(self).pending_root() matches Option::Some(r)
                        ==> final(self).graph_view().contains_key(r)
                            && final(self).graph_view()[r].state == ChipState::Resolved
                    &&& sim(states_of(old(self).graph_view()), old(self).pending_work())
                        == Outcome::Finished
                },
                ResolveStep::NeedDefinition(m) => {
                    &&& old(self).graph_view().contains_key(m@)
                        ==> old(self).graph_view()[m@].state != ChipState::Resolved
                    &&& final(self).awaiting_view() == Option::Some(m@)
                    &&& final(self).graph_view().contains_key(m@)
                    &&& final(self).graph_view()[m@]
                        == (Chip { gate_count: 0, state: ChipState::InProgress })
                    &&& final(self).pending_root() == old(self).pending_root()
                    &&& sim(states_of(old(self).graph_view()), old(self).pending_work())
                        == Outcome::Request(m@)
                },
                ResolveStep::Failed(e) => {
                    &&& final(self).idle()
                    &&& no_in_progress(final(self).graph_view())
                    &&& e matches ResolutionError::CyclicDefinition(s)
                    &&& e matches ResolutionError::CyclicDefinition(s)
                        ==> old(self).graph_view().contains_key(s@)
                            && old(self).graph_view()[s@].state == ChipState::InProgress
                            && sim(states_of(old(self).graph_view()), old(self).pending_work())
                        == Outcome::CycleAt(s@)
                    &&& failure_unwound(old(self), final(self))
                },
            },
    {
        let ghost g0 = self.graph@;
        let ghost root0 = self.pending_root();
        let ghost w0 = self.pending_work();
        while self.stack.len() != 0
            invariant
                self.inv(),
                self.awaiting is None,
                g0 == old(self).graph@,
                root0 == old(self).pending_root(),
                w0 == old(self).pending_work(),
                self.defs@ == old(self).defs@,
                resolved_preserved(g0, self.graph@),
                sim(states_of(g0), w0) == sim(states_of(self.graph@), self.pending_work()),
                forall|k: Seq<char>| #[trigger]
                    self.graph@.contains_key(k) <==> g0.contains_key(k),
                forall|k: Seq<char>|
                    g0.contains_key(k) && g0[k].state != ChipState::InProgress
                        ==> #[trigger] self.graph@[k] == g0[k],
                forall|k: Seq<char>|
                    self.graph@.contains_key(k) && (#[trigger] self.graph@[k]).state
                        == ChipState::InProgress ==> g0.contains_key(k) && g0[k].state
                        == ChipState::InProgress,
                match root0 {
                    Option::Some(r) => (self.stack@.len() > 0 ==> self.stack@[0].name@ == r) && (
                    self.stack@.len() == 0 ==> self.graph@.contains_key(r) && self.graph@[r].state
                        == ChipState::Resolved),
                    Option::None => self.stack@.len() == 0,
                },
            decreases frames_measure(self.stack@),
        {
            let ghost pw_pre = self.pending_work();
            let ghost spre = states_of(self.graph@);
            let depth = self.stack.len();
            let top = depth - 1;
            let fnext = self.stack[top].next;
            let flen = self.stack[top].subs.len();
            if fnext == flen {
                // Commit point: the whole sub-chip list is priced.
                let ghost pre_stack = self.stack@;
                let popped = self.stack.pop();
                match popped {
                    Option::Some(f) => {
                        let ghost gpre = self.graph@;
                        proof {
                            assert(f.subs.deep_view().take(f.subs@.len() as int)
                                =~= f.subs.deep_view());
                            assert forall|j: int| 0 <= j < f.subs.deep_view().len() implies
                                self.graph@.contains_key(#[trigger] f.subs.deep_view()[j])
                                    && self.graph@[f.subs.deep_view()[j]].state
                                    == ChipState::Resolved by {
                                assert(f.subs.deep_view()[j] == f.subs@[j]@);
                            }
                            lemma_rc_commit(self.graph@, self.defs@, f.name@, f.acc);
                        }
                        let count = f.acc;
                        self.graph.put(
                            f.name,
                            Chip { gate_count: count, state: ChipState::Resolved },
                        );
                        proof {
                            assert forall|i: int| 0 <= i < self.stack@.len() implies frame_inv(
                                self.graph@,
                                self.defs@,
                                #[trigger] self.stack@[i],
                            ) by {
                                assert(pre_stack[i] == self.stack@[i]);
                                assert(frame_inv(gpre, self.defs@, self.stack@[i]));
                                let fi = self.stack@[i];
                                assert(fi.name@ != f.name@);
                                assert forall|j: int| 0 <= j < fi.next implies self.graph@.contains_key(
                                    (#[trigger] fi.subs@[j])@,
                                ) && self.graph@[fi.subs@[j]@].state == ChipState::Resolved by {
                                    assert(fi.subs@[j]@ != f.name@);
                                }
                                assert forall|j: int|
                                    0 <= j < fi.subs.deep_view().take(fi.next as int).len() implies
                                    cost_in(
                                        gpre,
                                        #[trigger] fi.subs.deep_view().take(fi.next as int)[j],
                                    ) == cost_in(
                                        self.graph@,
                                        fi.subs.deep_view().take(fi.next as int)[j],
                                    ) by {
                                    assert(fi.subs.deep_view().take(fi.next as int)[j]
                                        == fi.subs@[j]@);
                                    assert(fi.subs@[j]@ != f.name@);
                                }
                                lemma_sat_sum_congruence(
                                    gpre,
                                    self.graph@,
                                    fi.subs.deep_view().take(fi.next as int),
                                );
                            }
                            assert forall|k: Seq<char>|
                                self.graph@.contains_key(k) && (#[trigger] self.graph@[k]).state
                                    == ChipState::InProgress implies in_progress_covered(
                                self.stack@,
                                self.awaiting,
                                k,
                            ) by {
                                assert(k != f.name@);
                                assert(gpre.contains_key(k) && gpre[k].state
                                    == ChipState::InProgress);
                                assert(in_progress_covered(pre_stack, self.awaiting, k));
                                let i = choose|i: int|
                                    0 <= i < pre_stack.len() && (#[trigger] pre_stack[i]).name@
                                        == k;
                                assert(i < pre_stack.len() - 1);
                                assert(self.stack@[i].name@ == k);
                            }
                            assert forall|k: Seq<char>| #[trigger]
                                g0.contains_key(k) && g0[k].state
                                    == ChipState::Resolved implies self.graph@.contains_key(k)
                                && self.graph@[k] == g0[k] by {
                                assert(gpre.contains_key(k) && gpre[k] == g0[k]);
                                assert(k != f.name@);
                            }
                            if self.stack@.len() == 0 {
                                assert(pre_stack[0] == f);
                            }
                            assert(frames_measure(self.stack@) < frames_measure(pre_stack));
                            assert(gpre.contains_key(f.name@));
                            assert(g0.contains_key(f.name@) && g0[f.name@].state
                                == ChipState::InProgress);
                            assert forall|k: Seq<char>|
                                (#[trigger] self.graph@.contains_key(k) <==> g0.contains_key(
                                    k,
                                )) by {
                                assert(gpre.contains_key(k) <==> g0.contains_key(k));
                            }
                            assert forall|k: Seq<char>|
                                g0.contains_key(k) && g0[k].state
                                    != ChipState::InProgress implies #[trigger] self.graph@[k]
                                == g0[k] by {
                                assert(k != f.name@);
                                assert(gpre[k] == g0[k]);
                            }
                            assert(pre_stack.last() == f);
                            assert(pw_pre.len() == pre_stack.len());
                            assert(pw_pre[pre_stack.len() - 1] == (
                                f.name@,
                                f.subs.deep_view().skip(f.next as int),
                            ));
                            assert(f.next == f.subs@.len());
                            assert(pw_pre.last().1 =~= Seq::<Seq<char>>::empty());
                            assert(self.pending_work() =~= pw_pre.drop_last());
                            assert(states_of(self.graph@) =~= spre.insert(
                                f.name@,
                                ChipState::Resolved,
                            ));
                            assert(sim(spre, pw_pre) == sim(
                                states_of(self.graph@),
                                self.pending_work(),
                            ));
                        }
                    }
                    Option::None => {
                        proof {
                            assert(false);
                        }
                    }
                }
            } else {
                let sub = self.stack[top].subs[fnext].clone();
                let looked = self.graph.get(&sub);
                let is_resolved = match looked {
                    Option::Some(c) => c.state == ChipState::Resolved,
                    Option::None => false,
                };
                let is_in_progress = match looked {
                    Option::Some(c) => c.state == ChipState::InProgress,
                    Option::None => false,
                };
                if is_in_progress {
                    // The sub-chip is an ancestor still being resolved:
                    // the definitions are cyclic.
                    let ghost gpre = self.graph@;
                    let ghost stack_pre = self.stack@;
                    proof {
                        assert forall|k: Seq<char>|
                            self.graph@.contains_key(k) && (#[trigger] self.graph@[k]).state
                                == ChipState::InProgress implies exists|i: int|
                            0 <= i < self.stack@.len() && (#[trigger] self.stack@[i]).name@
                                == k by {
                            assert(in_progress_covered(self.stack@, self.awaiting, k));
                        }
                        assert(pw_pre[top as int] == (
                            stack_pre[top as int].name@,
                            stack_pre[top as int].subs.deep_view().skip(fnext as int),
                        ));
                        assert(stack_pre[top as int].subs.deep_view()[fnext as int] == sub@);
                        assert(pw_pre.last().1[0] == sub@);
                        assert(spre.contains_key(sub@) && spre[sub@] == ChipState::InProgress);
                        assert(sim(spre, pw_pre) == Outcome::CycleAt(sub@));
                        assert(sim(states_of(g0), w0) == Outcome::CycleAt(sub@));
                    }
                    let step = self.fail(ResolutionError::CyclicDefinition(sub));
                    proof {
                        assert forall|k: Seq<char>| #[trigger]
                            g0.contains_key(k) && g0[k].state
                                == ChipState::Resolved implies self.graph@.contains_key(k)
                            && self.graph@[k] == g0[k] by {
                            assert(gpre.contains_key(k) && gpre[k] == g0[k]);
                            assert(gpre[k].state == ChipState::Resolved);
                        }
                        assert forall|k: Seq<char>|
                            (#[trigger] self.graph@.contains_key(k) <==> g0.contains_key(
                                k,
                            )) by {
                            assert(gpre.contains_key(k) <==> g0.contains_key(k));
                        }
                        assert forall|k: Seq<char>|
                            g0.contains_key(k) && g0[k].state
                                != ChipState::InProgress implies #[trigger] self.graph@[k]
                            == g0[k] by {
                            assert(gpre[k] == g0[k]);
                            assert(gpre[k].state != ChipState::InProgress);
                        }
                        match root0 {
                            Option::Some(r) => {
                                assert(stack_pre[0].name@ == r);
                                assert(gpre.contains_key(r) && gpre[r].state
                                    == ChipState::InProgress);
                                assert(self.graph@[r] == (Chip {
                                    gate_count: 0,
                                    state: ChipState::Unvisited,
                                }));
                            }
                            Option::None => {}
                        }
                    }
                    return step;
                } else if is_resolved {
                    let ghost pre_stack = self.stack@;
                    let c = match looked {
                        Option::Some(c) => c,
                        Option::None => vstd::pervasive::unreached(),
                    };
                    let acc0 = self.stack[top].acc;
                    let new_acc = sat_add_counts(acc0, c.gate_count);
                    self.stack[top].acc = new_acc;
                    self.stack[top].next = fnext + 1;
                    proof {
                        let fi = self.stack@[top as int];
                        let dv = fi.subs.deep_view();
                        assert(dv.take(fnext + 1).drop_last() =~= dv.take(fnext as int));
                        assert(dv.take(fnext + 1).last() == dv[fnext as int]);
                        assert(dv[fnext as int] == fi.subs@[fnext as int]@);
                        assert(fi.subs@[fnext as int]@ == sub@);
                        assert(fi.acc as int == sat_sum(self.graph@, dv.take(fnext + 1)));
                        assert forall|i: int| 0 <= i < self.stack@.len() implies frame_inv(
                            self.graph@,
                            self.defs@,
                            #[trigger] self.stack@[i],
                        ) by {
                            if i != top as int {
                                assert(self.stack@[i] == pre_stack[i]);
                            }
                        }
                        assert forall|i: int| 0 <= i < self.stack@.len() implies (
                        #[trigger] self.stack@[i]).name@ == pre_stack[i].name@ by {
                            if i != top as int {
                                assert(self.stack@[i] == pre_stack[i]);
                            }
                        }
                        assert forall|k: Seq<char>|
                            self.graph@.contains_key(k) && (#[trigger] self.graph@[k]).state
                                == ChipState::InProgress implies in_progress_covered(
                            self.stack@,
                            self.awaiting,
                            k,
                        ) by {
                            assert(in_progress_covered(pre_stack, self.awaiting, k));
                            let w = choose|w: int|
                                0 <= w < pre_stack.len() && (#[trigger] pre_stack[w]).name@ == k;
                            assert(self.stack@[w].name@ == k);
                        }
                        assert(frames_measure(self.stack@) < frames_measure(pre_stack)) by {
                            assert(self.stack@.drop_last() =~= pre_stack.drop_last());
                        }
                        assert(self.inv());
                        let prem = pw_pre.last().1;
                        assert(pw_pre[top as int] == (
                            pre_stack[top as int].name@,
                            pre_stack[top as int].subs.deep_view().skip(fnext as int),
                        ));
                        assert(pre_stack[top as int].subs.deep_view()[fnext as int] == sub@);
                        assert(prem[0] == sub@);
                        assert(spre.contains_key(sub@) && spre[sub@] == ChipState::Resolved);
                        let pw2 = pw_pre.update(
                            pw_pre.len() - 1,
                            (pw_pre.last().0, prem.drop_first()),
                        );
                        assert(sim(spre, pw_pre) == sim(spre, pw2));
                        assert(self.stack@[top as int].subs == pre_stack[top as int].subs);
                        assert(prem.drop_first() =~= self.stack@[top as int].subs.deep_view().skip(
                            fnext as int + 1,
                        ));
                        assert(self.pending_work()[top as int] == (
                            self.stack@[top as int].name@,
                            self.stack@[top as int].subs.deep_view().skip(fnext as int + 1),
                        ));
                        assert(self.pending_work() =~= pw2);
                        assert(states_of(self.graph@) == spre);
                        assert(sim(states_of(g0), w0) == sim(
                            states_of(self.graph@),
                            self.pending_work(),
                        ));
                    }
                } else {
                    // First reference to an undefined chip: insert the
                    // placeholder, mark it in progress, and ask for its
                    // definition.
                    let ghost gpre = self.graph@;
                    let ghost pre_stack = self.stack@;
                    proof {
                        lemma_rc_put_nonresolved(
                            self.graph@,
                            self.defs@,
                            sub@,
                            Chip { gate_count: 0, state: ChipState::InProgress },
                        );
                    }
                    self.graph.put(
                        sub.clone(),
                        Chip { gate_count: 0, state: ChipState::InProgress },
                    );
                    self.awaiting = Option::Some(sub.clone());
                    proof {
                        assert forall|i: int| 0 <= i < self.stack@.len() implies frame_inv(
                            self.graph@,
                            self.defs@,
                            #[trigger] self.stack@[i],
                        ) by {
                            let fi = self.stack@[i];
                            assert(frame_inv(gpre, self.defs@, fi));
                            assert(fi.name@ != sub@);
                            assert forall|j: int| 0 <= j < fi.next implies self.graph@.contains_key(
                                (#[trigger] fi.subs@[j])@,
                            ) && self.graph@[fi.subs@[j]@].state == ChipState::Resolved by {
                                assert(fi.subs@[j]@ != sub@);
                            }
                            assert forall|j: int|
                                0 <= j < fi.subs.deep_view().take(fi.next as int).len() implies
                                cost_in(
                                    gpre,
                                    #[trigger] fi.subs.deep_view().take(fi.next as int)[j],
                                ) == cost_in(
                                    self.graph@,
                                    fi.subs.deep_view().take(fi.next as int)[j],
                                ) by {
                                assert(fi.subs.deep_view().take(fi.next as int)[j]
                                    == fi.subs@[j]@);
                                assert(fi.subs@[j]@ != sub@);
                            }
                            lemma_sat_sum_congruence(
                                gpre,
                                self.graph@,
                                fi.subs.deep_view().take(fi.next as int),
                            );
                        }
                        assert forall|k: Seq<char>|
                            self.graph@.contains_key(k) && (#[trigger] self.graph@[k]).state
                                == ChipState::InProgress implies in_progress_covered(
                            self.stack@,
                            self.awaiting,
                            k,
                        ) by {
                            if k != sub@ {
                                assert(gpre.contains_key(k) && gpre[k].state
                                    == ChipState::InProgress);
                                assert(in_progress_covered(pre_stack, Option::None, k));
                            }
                        }
                        assert forall|k: Seq<char>| #[trigger]
                            g0.contains_key(k) && g0[k].state
                                == ChipState::Resolved implies self.graph@.contains_key(k)
                            && self.graph@[k] == g0[k] by {
                            assert(gpre.contains_key(k) && gpre[k] == g0[k]);
                            assert(k != sub@);
                        }
                        assert forall|k: Seq<char>| g0.contains_key(k) implies
                            #[trigger] self.graph@.contains_key(k) by {
                            assert(gpre.contains_key(k));
                        }
                        assert(pw_pre[top as int] == (
                            pre_stack[top as int].name@,
                            pre_stack[top as int].subs.deep_view().skip(fnext as int),
                        ));
                        assert(pre_stack[top as int].subs.deep_view()[fnext as int] == sub@);
                        assert(pw_pre.last().1[0] == sub@);
                        assert(!(spre.contains_key(sub@) && spre[sub@] == ChipState::Resolved));
                        assert(!(spre.contains_key(sub@) && spre[sub@]
                            == ChipState::InProgress));
                        assert(sim(spre, pw_pre) == Outcome::Request(sub@));
                        assert(sim(states_of(g0), w0) == Outcome::Request(sub@));
                        assert(self.inv());
                    }
                    return ResolveStep::NeedDefinition(sub);
                }
            }
        }
        proof {
            assert(no_in_progress(self.graph@)) by {
                assert forall|k: Seq<char>|
                    self.graph@.contains_key(k) implies (#[trigger] self.graph@[k]).state
                    != ChipState::InProgress by {
                    if self.graph@[k].state == ChipState::InProgress {
                        assert(in_progress_covered(self.stack@, self.awaiting, k));
                    }
                }
            }
            assert(self.pending_work() =~= Seq::<(Seq<char>, Seq<Seq<char>>)>::empty());
            assert(sim(states_of(self.graph@), self.pending_work()) == Outcome::Finished);
            assert(sim(states_of(g0), w0) == Outcome::Finished);
            assert forall|k: Seq<char>| g0.contains_key(k) implies #[trigger] self.graph@.contains_key(
                k,
            ) by {}
        }
        ResolveStep::Done
    }
}

/// Law: the cost a resolution pass commits for a chip is exactly the sum
/// of the costs of the sub-chips of its accepted definition, in
/// declaration order and with repetition kept, saturating at `usize::MAX`;
/// and every one of those sub-chips is itself resolved.
pub proof fn lemma_resolved_cost(r: &Resolver, name: Seq<char>)
    requires
        r.inv(),
        r.defs_view().contains_key(name),
        r.graph_view().contains_key(name),
        r.graph_view()[name].state == ChipState::Resolved,
    ensures
        subs_resolved(r.graph_view(), r.defs_view()[name]),
        r.graph_view()[name].gate_count as int == sat_sum(r.graph_view(), r.defs_view()[name]),
{
}

/// Law: a chip resolved from a definition whose sub-chip list is one
/// single name costs exactly that sub-chip's cost.
pub proof fn lemma_single_sub_cost(r: &Resolver, name: Seq<char>, sub: Seq<char>)
    requires
        r.inv(),
        r.defs_view().contains_key(name),
        r.defs_view()[name] == seq![sub],
        r.graph_view().contains_key(name),
        r.graph_view()[name].state == ChipState::Resolved,
    ensures
        r.graph_view().contains_key(sub),
        r.graph_view()[name].gate_count == r.graph_view()[sub].gate_count,
{
    lemma_resolved_cost(r, name);
    let g = r.graph_view();
    let subs = r.defs_view()[name];
    assert(subs[0] == sub);
    assert(g.contains_key(sub) && g[sub].state == ChipState::Resolved);
    assert(subs.len() == 1);
    assert(subs.drop_last() =~= Seq::<Seq<char>>::empty());
    assert(sat_sum(g, subs.drop_last()) == 0);
    assert(subs.last() == sub);
    assert(sat_sum(g, subs) == sat_add(0, cost_in(g, sub)));
    assert(cost_in(g, sub) == g[sub].gate_count as int);
}

/// Law: with the catalog seeded, a chip resolved from a definition whose
/// only sub-chip is NAND costs exactly one gate.
pub proof fn lemma_nand_only_cost(r: &Resolver, name: Seq<char>)
    requires
        r.inv(),
        catalog_seeded(r.graph_view()),
        r.defs_view().contains_key(name),
        r.defs_view()[name] == seq![nand_name()],
        r.graph_view().contains_key(name),
        r.graph_view()[name].state == ChipState::Resolved,
    ensures
        r.graph_view()[name].gate_count == 1,
{
    lemma_single_sub_cost(r, name, nand_name());
}

/// Law: multiplicity is additive, not deduplicated.  A chip resolved from
/// a definition that references the same sub-chip twice costs exactly
/// twice that sub-chip's cost, as long as the double fits a `usize`.
pub proof fn lemma_repeated_sub_cost(r: &Resolver, name: Seq<char>, sub: Seq<char>)
    requires
        r.inv(),
        r.defs_view().contains_key(name),
        r.defs_view()[name] == seq![sub, sub],
        r.graph_view().contains_key(name),
        r.graph_view()[name].state == ChipState::Resolved,
        r.graph_view().contains_key(sub) ==> 2 * (r.graph_view()[sub].gate_count as int)
            <= usize::MAX as int,
    ensures
        r.graph_view().contains_key(sub),
        r.graph_view()[name].gate_count as int == 2 * (r.graph_view()[sub].gate_count as int),
{
    lemma_resolved_cost(r, name);
    let g = r.graph_view();
    let subs = r.defs_view()[name];
    assert(subs[0] == sub);
    assert(g.contains_key(sub) && g[sub].state == ChipState::Resolved);
    let c = g[sub].gate_count as int;
    let single = subs.drop_last();
    assert(subs.len() == 2);
    assert(single.len() == 1);
    assert(single[0] == sub);
    assert(single.drop_last() =~= Seq::<Seq<char>>::empty());
    assert(sat_sum(g, single.drop_last()) == 0);
    assert(single.last() == sub);
    assert(cost_in(g, sub) == c);
    assert(sat_sum(g, single) == sat_add(0, c));
    assert(subs.last() == sub);
    assert(sat_sum(g, subs) == sat_add(sat_add(0, c), c));
}

/// Law: the catalog chips are resolved from the seeding on, and the
/// machine requests a definition only for a chip that is not resolved (see
/// `Resolver::start` and `Resolver::provide`), so a built-in or NAND never
/// requires a storage read.
pub proof fn lemma_catalog_needs_no_lookup(r: &Resolver, b: Seq<char>)
    requires
        catalog_seeded(r.graph_view()),
        is_catalog_name(b),
    ensures
        r.graph_view().contains_key(b),
        r.graph_view()[b].state == ChipState::Resolved,
{
    let g = r.graph_view();
    assert(catalog_seeded(g));
    if b == nand_name() {
        assert(g.contains_key(b));
    } else {
        assert(crate::chip::is_builtin(b));
        assert(g.contains_key(b) && g[b] == (Chip { gate_count: 0, state: ChipState::Resolved }));
    }
}

} // verus!
