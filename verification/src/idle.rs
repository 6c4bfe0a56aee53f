//! Law: an update of a tree at rest does nothing but tell the backend.
use crate::backend::UiBackend;
use crate::dispatch::DynEffectFunc;
use crate::dispatch::DynWidgetFunc;
use crate::model::Deferred;
use crate::model::Event;
use crate::model::Step;
use crate::model::Steps;
use crate::model::Tree;
use vstd::prelude::*;

verus! {

impl<B: UiBackend> Tree<B> where B::WidgetFn: DynWidgetFunc<B>, B::EffectFn: DynEffectFunc<B> {
    /// The tree is at rest in `host`: no component is out of date, no effect
    /// reports a change of its dependencies, and no effect is due to run.
    pub open spec fn idle(self, host: B::RunCtx) -> bool
        decreases self,
    {
        match self {
            Tree::Empty => true,
            Tree::Component { template, result, state, deps } => !Self::stale(
                template,
                state,
                deps,
                host,
            ) && result.idle(host),
            Tree::Effect { template, state, cleanup, pending } => pending is None
                && !template.func.needs_recalc_spec(host, state),
            Tree::Unit { unit, children } => children.idle(host),
            Tree::Group { render_order, ordered, names, named } => {
                &&& forall|i: int| 0 <= i < named.len() ==> (#[trigger] named[i]).idle(host)
                &&& forall|i: int| 0 <= i < ordered.len() ==> (#[trigger] ordered[i]).idle(host)
            },
        }
    }

    /// The traversal of a tree at rest changes nothing and calls nothing but
    /// the change checks.
    pub proof fn law_idle_process(self, host: B::RunCtx, queue: Seq<Deferred<B>>)
        requires
            self.idle(host),
        ensures
            self.process(host, queue) == (Step { tree: self, host, queue, log: seq![] }),
        decreases self, 0nat,
    {
        match self {
            Tree::Empty => {},
            Tree::Component { template, result, state, deps } => {
                result.law_idle_process(host, queue);
            },
            Tree::Effect { .. } => {},
            Tree::Unit { unit, children } => {
                children.law_idle_process(host, queue);
            },
            Tree::Group { render_order, ordered, names, named } => {
                Self::lemma_idle_process_all(named, named.len(), host, queue);
                Self::lemma_idle_process_all(ordered, ordered.len(), host, queue);
                assert(named.subrange(0, named.len() as int) =~= named);
                assert(ordered.subrange(0, ordered.len() as int) =~= ordered);
                assert(Seq::<Event>::empty() + Seq::<Event>::empty() =~= Seq::<Event>::empty());
            },
        }
    }

    /// The traversal of trees at rest changes nothing.
    pub proof fn lemma_idle_process_all(
        trees: Seq<Tree<B>>,
        n: nat,
        host: B::RunCtx,
        queue: Seq<Deferred<B>>,
    )
        requires
            n <= trees.len(),
            forall|i: int| 0 <= i < n ==> (#[trigger] trees[i]).idle(host),
        ensures
            Self::process_all(trees, n, host, queue) == (Steps {
                trees: trees.subrange(0, n as int),
                host,
                queue,
                log: seq![],
            }),
        decreases trees, n,
    {
        if n > 0 {
            Self::lemma_idle_process_all(trees, (n - 1) as nat, host, queue);
            trees[n - 1].law_idle_process(host, queue);
            assert(trees.subrange(0, n - 1).push(trees[n - 1]) =~= trees.subrange(0, n as int));
            assert(Seq::<Event>::empty() + Seq::<Event>::empty() =~= Seq::<Event>::empty());
        } else {
            assert(trees.subrange(0, 0) =~= Seq::<Tree<B>>::empty());
        }
    }

    /// Idempotent settle: an update of a tree at rest takes one pass, leaves
    /// the tree as it is, and does nothing to the host but tell the backend
    /// once. Nothing is mounted, compared, unmounted, deferred or run.
    pub proof fn law_idle_update(self, host: B::RunCtx, limit: nat)
        requires
            self.idle(host),
            limit > 0,
        ensures
            !self.unsettled(host),
            self.settles_within(host, limit),
            self.settle(host, limit) == (Step {
                tree: self,
                host: B::mark_update_spec(host),
                queue: seq![],
                log: seq![Event::MarkUpdate],
            }),
    {
        self.law_idle_process(host, seq![]);
        assert(Seq::<Event>::empty().push(Event::MarkUpdate) + Seq::<Event>::empty() =~= seq![
            Event::MarkUpdate,
        ]);
    }
}

} // verus!
