//! Law: the cleanup action of an effect runs once, right before the effect
//! runs again or after the effect has been unmounted.
use crate::backend::UiBackend;
use crate::dispatch::DynEffectFunc;
use crate::dispatch::DynWidgetFunc;
use crate::model::Deferred;
use crate::model::Event;
use crate::model::Tree;
use crate::node::WidgetEffectComponent;
use vstd::prelude::*;

verus! {

/// The number of events in `log` that are runs of a cleanup action.
pub open spec fn cleanups(log: Seq<Event>) -> nat
    decreases log.len(),
{
    if log.len() == 0 {
        0
    } else {
        cleanups(log.drop_last()) + if log.last() is Cleanup {
            1nat
        } else {
            0nat
        }
    }
}

/// The number of events in `log` that are runs of an effect.
pub open spec fn runs(log: Seq<Event>) -> nat
    decreases log.len(),
{
    if log.len() == 0 {
        0
    } else {
        runs(log.drop_last()) + if log.last() is EffectRun {
            1nat
        } else {
            0nat
        }
    }
}

/// The record of one pass in which the effect `id` runs again: the backend is
/// told, the cleanup action of the previous run runs, then the effect.
pub open spec fn rerun(id: u64) -> Seq<Event> {
    seq![Event::MarkUpdate, Event::Cleanup, Event::EffectRun(id)]
}

/// The record of `n` passes in each of which the effect `id` runs again.
pub open spec fn reruns(id: u64, n: nat) -> Seq<Event>
    decreases n,
{
    if n == 0 {
        seq![]
    } else {
        reruns(id, (n - 1) as nat) + rerun(id)
    }
}

/// Counting cleanup actions and effect runs goes through concatenation.
pub proof fn lemma_runs_add(a: Seq<Event>, b: Seq<Event>)
    ensures
        cleanups(a + b) == cleanups(a) + cleanups(b),
        runs(a + b) == runs(a) + runs(b),
    decreases b.len(),
{
    if b.len() == 0 {
        assert(a + b =~= a);
    } else {
        lemma_runs_add(a, b.drop_last());
        assert((a + b).drop_last() =~= a + b.drop_last());
    }
}

/// Counting cleanup actions and effect runs in a log that ends with `e`.
pub proof fn lemma_runs_push(a: Seq<Event>, e: Event)
    ensures
        cleanups(a.push(e)) == cleanups(a) + if e is Cleanup {
            1nat
        } else {
            0nat
        },
        runs(a.push(e)) == runs(a) + if e is EffectRun {
            1nat
        } else {
            0nat
        },
{
    assert(a.push(e).drop_last() =~= a);
}

/// In `n` reruns the cleanup action runs `n` times and the effect `n` times.
pub proof fn lemma_reruns_counts(id: u64, n: nat)
    ensures
        cleanups(reruns(id, n)) == n,
        runs(reruns(id, n)) == n,
    decreases n,
{
    if n > 0 {
        lemma_reruns_counts(id, (n - 1) as nat);
        lemma_runs_add(reruns(id, (n - 1) as nat), rerun(id));
        let none = Seq::<Event>::empty();
        lemma_runs_push(none, Event::MarkUpdate);
        lemma_runs_push(none.push(Event::MarkUpdate), Event::Cleanup);
        lemma_runs_push(none.push(Event::MarkUpdate).push(Event::Cleanup), Event::EffectRun(id));
        assert(rerun(id) =~= none.push(Event::MarkUpdate).push(Event::Cleanup).push(
            Event::EffectRun(id),
        ));
    } else {
        assert(reruns(id, n) =~= Seq::<Event>::empty());
    }
}

impl<B: UiBackend> Tree<B> where B::WidgetFn: DynWidgetFunc<B>, B::EffectFn: DynEffectFunc<B> {
    /// The tree after `n` passes, the `i`-th of which begins in the host
    /// context `hosts[i]`.
    pub open spec fn after_passes(self, hosts: Seq<B::RunCtx>, n: nat) -> Tree<B>
        decreases n,
    {
        if n == 0 || n > hosts.len() {
            self
        } else {
            self.after_passes(hosts, (n - 1) as nat).pass(hosts[n - 1]).tree
        }
    }

    /// The record of `n` passes, the `i`-th of which begins in the host
    /// context `hosts[i]`.
    pub open spec fn passes_log(self, hosts: Seq<B::RunCtx>, n: nat) -> Seq<Event>
        decreases n,
    {
        if n == 0 || n > hosts.len() {
            seq![]
        } else {
            self.passes_log(hosts, (n - 1) as nat) + self.after_passes(
                hosts,
                (n - 1) as nat,
            ).pass(hosts[n - 1]).log
        }
    }

    /// Whether the tree is an effect that has run, is not due, and whose
    /// dependencies have changed in `host`.
    pub open spec fn outdated(self, host: B::RunCtx) -> bool {
        self matches Tree::Effect { template, state, cleanup, pending } && cleanup is Some
            && pending is None && template.func.needs_recalc_spec(host, state)
    }

    /// One pass over an effect whose dependencies have changed: the backend
    /// is told, the cleanup action of the previous run runs, and right after
    /// it the effect. The effect then holds the cleanup action of this run.
    pub proof fn law_rerun_cleans_first(
        template: WidgetEffectComponent<B>,
        state: B::State,
        action: B::Cleanup,
        host: B::RunCtx,
    )
        requires
            template.func.needs_recalc_spec(host, state),
        ensures
            ({
                let mounted = Tree::Effect {
                    template,
                    state,
                    cleanup: Some(action),
                    pending: None,
                };
                let step = mounted.pass(host);
                let cleaned = B::cleanup_spec(B::mark_update_spec(host), action);
                let ran = template.func.call_spec(cleaned, template.spec_props(), state);
                &&& step.log == rerun(template.func.identity())
                &&& step.host == ran.1
                &&& step.tree == Tree::Effect {
                    template,
                    state: ran.2,
                    cleanup: Some(ran.0),
                    pending: None,
                }
            }),
    {
        let mounted = Tree::Effect { template, state, cleanup: Some(action), pending: None };
        let step = mounted.pass(host);
        let walked = mounted.process(host, seq![]);
        let told = B::mark_update_spec(host);
        assert(walked.queue =~= seq![Deferred::Run]);
        assert(walked.tree.flush_upto(told, walked.queue, 0).log =~= Seq::<Event>::empty());
        assert(step.log =~= rerun(template.func.identity()));
    }

    /// Effect cleanup ordering: over `n` passes before each of which the
    /// dependencies of an effect have changed, its cleanup action runs `n`
    /// times, each time right before the effect runs again, and nothing else
    /// happens but the notices to the backend.
    pub proof fn law_cleanup_before_each_rerun(self, hosts: Seq<B::RunCtx>, n: nat)
        requires
            n <= hosts.len(),
            self matches Tree::Effect { cleanup, pending, .. } && cleanup is Some && pending is None,
            forall|i: int| 0 <= i < n ==> (#[trigger] self.after_passes(hosts, i as nat)).outdated(
                hosts[i],
            ),
        ensures
            self.after_passes(hosts, n) matches Tree::Effect { template, cleanup, pending, .. }
                && cleanup is Some && pending is None && template == self->Effect_template,
            self.passes_log(hosts, n) == reruns(self->Effect_template.func.identity(), n),
            cleanups(self.passes_log(hosts, n)) == n,
            runs(self.passes_log(hosts, n)) == n,
        decreases n,
    {
        let id = self->Effect_template.func.identity();
        if n > 0 {
            self.law_cleanup_before_each_rerun(hosts, (n - 1) as nat);
            let before = self.after_passes(hosts, (n - 1) as nat);
            assert(before.outdated(hosts[n - 1]));
            match before {
                Tree::Effect { template, state, cleanup, pending } => {
                    Self::law_rerun_cleans_first(template, state, cleanup->0, hosts[n - 1]);
                },
                _ => {},
            }
        }
        lemma_reruns_counts(id, n);
    }

    /// The final cleanup: unmounting an effect that has run defers its
    /// cleanup action once, and the deferred work that follows runs it once.
    /// An effect that never ran leaves nothing to clean up.
    pub proof fn law_unmount_cleans_once(
        template: WidgetEffectComponent<B>,
        state: B::State,
        cleanup: Option<B::Cleanup>,
        pending: Option<nat>,
        host: B::RunCtx,
    )
        ensures
            ({
                let mounted = Tree::Effect { template, state, cleanup, pending };
                let gone = mounted.unmount(host, seq![]);
                let after = gone.tree.flush(gone.host, gone.queue);
                match cleanup {
                    Some(action) => {
                        &&& gone.queue == seq![Deferred::<B>::Cleanup(action)]
                        &&& after.log == seq![Event::Cleanup]
                        &&& after.host == B::cleanup_spec(host, action)
                    },
                    None => {
                        &&& gone.queue == Seq::<Deferred<B>>::empty()
                        &&& after.log == Seq::<Event>::empty()
                        &&& after.host == host
                    },
                }
            }),
    {
        let mounted = Tree::Effect { template, state, cleanup, pending };
        let gone = mounted.unmount(host, seq![]);
        let after = gone.tree.flush(gone.host, gone.queue);
        match cleanup {
            Some(action) => {
                assert(gone.queue =~= seq![Deferred::<B>::Cleanup(action)]);
                assert(gone.tree.flush_upto(host, gone.queue, 0).log =~= Seq::<Event>::empty());
                assert(after.log =~= seq![Event::Cleanup]);
            },
            None => {
                assert(after.log =~= Seq::<Event>::empty());
            },
        }
    }

    /// Leaving out the last piece of the deferred work changes nothing of
    /// what is done before it.
    pub proof fn lemma_flush_prefix(
        self,
        host: B::RunCtx,
        queue: Seq<Deferred<B>>,
        last: Deferred<B>,
        n: nat,
    )
        requires
            n <= queue.len(),
        ensures
            self.flush_upto(host, queue.push(last), n) == self.flush_upto(host, queue, n),
        decreases n,
    {
        if n > 0 {
            self.lemma_flush_prefix(host, queue, last, (n - 1) as nat);
        }
    }

    /// The deferred work runs in the order of the list: what was deferred
    /// last is done last, upon the tree and the host context that everything
    /// deferred before it has left. A cleanup action is run; a run is the
    /// run of the effect that holds the position of the entry as ticket.
    pub proof fn law_deferred_work_runs_in_order(
        self,
        host: B::RunCtx,
        queue: Seq<Deferred<B>>,
        last: Deferred<B>,
    )
        ensures
            ({
                let before = self.flush(host, queue);
                let all = self.flush(host, queue.push(last));
                match last {
                    Deferred::Cleanup(action) => {
                        &&& all.tree == before.tree
                        &&& all.host == B::cleanup_spec(before.host, action)
                        &&& all.log == before.log.push(Event::Cleanup)
                    },
                    Deferred::Run => {
                        let ran = before.tree.run_due(queue.len(), before.host);
                        &&& all.tree == ran.tree
                        &&& all.host == ran.host
                        &&& all.log == before.log + ran.log
                    },
                }
            }),
    {
        self.lemma_flush_prefix(host, queue, last, queue.len());
    }

    /// In any tree, the cleanup action that a run of an effect runs comes
    /// right before the effect itself: nothing else happens in between.
    pub proof fn law_cleanup_right_before_run(self, ticket: nat, host: B::RunCtx)
        ensures
            paired(self.run_due(ticket, host).log),
        decreases self, 0nat,
    {
        let step = self.run_due(ticket, host);
        match self {
            Tree::Empty => {},
            Tree::Component { template, result, state, deps } => {
                result.law_cleanup_right_before_run(ticket, host);
            },
            Tree::Effect { .. } => {},
            Tree::Unit { unit, children } => {
                children.law_cleanup_right_before_run(ticket, host);
            },
            Tree::Group { render_order, ordered, names, named } => {
                let first = Self::run_due_all(named, named.len(), ticket, host);
                let second = Self::run_due_all(ordered, ordered.len(), ticket, first.host);
                Self::lemma_run_due_all_paired(named, named.len(), ticket, host);
                Self::lemma_run_due_all_paired(ordered, ordered.len(), ticket, first.host);
                lemma_paired_add(first.log, second.log);
            },
        }
    }

    /// In the runs of the effects of a sequence, every cleanup action comes
    /// right before its effect.
    pub proof fn lemma_run_due_all_paired(trees: Seq<Tree<B>>, n: nat, ticket: nat, host: B::RunCtx)
        ensures
            paired(Self::run_due_all(trees, n, ticket, host).log),
        decreases trees, n,
    {
        if !(n == 0 || n > trees.len()) {
            let before = Self::run_due_all(trees, (n - 1) as nat, ticket, host);
            Self::lemma_run_due_all_paired(trees, (n - 1) as nat, ticket, host);
            let last = trees[n - 1].run_due(ticket, before.host);
            trees[n - 1].law_cleanup_right_before_run(ticket, before.host);
            lemma_paired_add(before.log, last.log);
        }
    }
}

/// Every cleanup action in `log` is followed at once by the run of an
/// effect.
pub open spec fn paired(log: Seq<Event>) -> bool {
    forall|i: int|
        0 <= i < log.len() && #[trigger] log[i] is Cleanup ==> i + 1 < log.len() && log[i + 1]
            is EffectRun
}

/// Two records in which every cleanup action is followed by its effect
/// make one such record.
pub proof fn lemma_paired_add(a: Seq<Event>, b: Seq<Event>)
    requires
        paired(a),
        paired(b),
    ensures
        paired(a + b),
{
    assert forall|i: int| 0 <= i < (a + b).len() && #[trigger] (a + b)[i] is Cleanup implies i + 1
        < (a + b).len() && (a + b)[i + 1] is EffectRun by {
        if i < a.len() {
            assert(a[i] is Cleanup);
            assert((a + b)[i + 1] == a[i + 1]);
        } else {
            assert(b[i - a.len()] is Cleanup);
            assert((a + b)[i + 1] == b[i + 1 - a.len()]);
        }
    }
}

} // verus!
