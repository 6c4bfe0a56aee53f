//! Law: every run that a pass defers takes place in that pass, and no effect
//! is due when the pass is over.
//!
//! An effect that is due holds a ticket: the position of its run in the list
//! of deferred work. Reconciliation only hands out tickets for runs that it
//! defers, and the deferred work redeems every one of them.
use crate::backend::UiBackend;
use crate::dispatch::DynEffectFunc;
use crate::dispatch::DynWidgetFunc;
use crate::model::counterpart;
use crate::model::is_missing;
use crate::model::Deferred;
use crate::model::Tree;
use crate::node::name_views;
use crate::node::WidgetComponent;
use crate::node::WidgetNode;
use crate::node::WidgetNodeGroup;
use vstd::prelude::*;

verus! {

/// The list `longer` begins with the list `shorter`.
pub open spec fn extends<B: UiBackend>(shorter: Seq<Deferred<B>>, longer: Seq<Deferred<B>>) -> bool {
    &&& shorter.len() <= longer.len()
    &&& forall|k: int| 0 <= k < shorter.len() ==> longer[k] == #[trigger] shorter[k]
}

impl<B: UiBackend> Tree<B> {
    /// Every ticket held in the tree is at least `low` and is the position
    /// of a run in `queue`.
    pub open spec fn ticketed(self, queue: Seq<Deferred<B>>, low: nat) -> bool
        decreases self,
    {
        match self {
            Tree::Empty => true,
            Tree::Component { template, result, state, deps } => result.ticketed(queue, low),
            Tree::Effect { template, state, cleanup, pending } => match pending {
                Some(ticket) => low <= ticket < queue.len() && queue[ticket as int] is Run,
                None => true,
            },
            Tree::Unit { unit, children } => children.ticketed(queue, low),
            Tree::Group { render_order, ordered, names, named } => {
                &&& forall|i: int| 0 <= i < named.len() ==> (#[trigger] named[i]).ticketed(queue, low)
                &&& forall|i: int|
                    0 <= i < ordered.len() ==> (#[trigger] ordered[i]).ticketed(queue, low)
            },
        }
    }

    /// No effect in the tree is due.
    pub open spec fn at_ease(self) -> bool {
        self.ticketed(Seq::<Deferred<B>>::empty(), 0)
    }

    /// Tickets stay good when the list grows and the bound sinks.
    pub proof fn lemma_ticketed_mono(
        self,
        queue: Seq<Deferred<B>>,
        low: nat,
        longer: Seq<Deferred<B>>,
        lower: nat,
    )
        requires
            self.ticketed(queue, low),
            extends(queue, longer),
            lower <= low,
        ensures
            self.ticketed(longer, lower),
        decreases self,
    {
        match self {
            Tree::Empty => {},
            Tree::Component { template, result, state, deps } => {
                result.lemma_ticketed_mono(queue, low, longer, lower);
            },
            Tree::Effect { template, state, cleanup, pending } => {
                match pending {
                    Some(ticket) => {
                        assert(longer[ticket as int] == queue[ticket as int]);
                    },
                    None => {},
                }
            },
            Tree::Unit { unit, children } => {
                children.lemma_ticketed_mono(queue, low, longer, lower);
            },
            Tree::Group { render_order, ordered, names, named } => {
                assert forall|i: int| 0 <= i < named.len() implies (#[trigger] named[i]).ticketed(
                    longer,
                    lower,
                ) by {
                    named[i].lemma_ticketed_mono(queue, low, longer, lower);
                }
                assert forall|i: int| 0 <= i < ordered.len() implies (
                #[trigger] ordered[i]).ticketed(longer, lower) by {
                    ordered[i].lemma_ticketed_mono(queue, low, longer, lower);
                }
            },
        }
    }

    /// Where every ticket would lie beyond the end of the list, none is
    /// held.
    pub proof fn lemma_no_ticket_left(self, queue: Seq<Deferred<B>>, low: nat)
        requires
            self.ticketed(queue, low),
            queue.len() <= low,
        ensures
            self.at_ease(),
        decreases self,
    {
        match self {
            Tree::Empty => {},
            Tree::Component { template, result, state, deps } => {
                result.lemma_no_ticket_left(queue, low);
            },
            Tree::Effect { .. } => {},
            Tree::Unit { unit, children } => {
                children.lemma_no_ticket_left(queue, low);
            },
            Tree::Group { render_order, ordered, names, named } => {
                let none = Seq::<Deferred<B>>::empty();
                assert forall|i: int| 0 <= i < named.len() implies (#[trigger] named[i]).ticketed(
                    none,
                    0,
                ) by {
                    named[i].lemma_no_ticket_left(queue, low);
                }
                assert forall|i: int| 0 <= i < ordered.len() implies (
                #[trigger] ordered[i]).ticketed(none, 0) by {
                    ordered[i].lemma_no_ticket_left(queue, low);
                }
            },
        }
    }

    /// The trees of `trees` with good tickets keep them when the list
    /// grows.
    pub proof fn lemma_ticketed_all_mono(
        trees: Seq<Tree<B>>,
        queue: Seq<Deferred<B>>,
        longer: Seq<Deferred<B>>,
    )
        requires
            forall|i: int| 0 <= i < trees.len() ==> (#[trigger] trees[i]).ticketed(queue, 0),
            extends(queue, longer),
        ensures
            forall|i: int| 0 <= i < trees.len() ==> (#[trigger] trees[i]).ticketed(longer, 0),
    {
        assert forall|i: int| 0 <= i < trees.len() implies (#[trigger] trees[i]).ticketed(
            longer,
            0,
        ) by {
            trees[i].lemma_ticketed_mono(queue, 0, longer, 0);
        }
    }
}

impl<B: UiBackend> Tree<B> where B::WidgetFn: DynWidgetFunc<B>, B::EffectFn: DynEffectFunc<B> {
    /// Mounting adds to the deferred work and hands out tickets for runs it
    /// deferred.
    pub proof fn lemma_mount_tickets(node: WidgetNode<B>, host: B::RunCtx, queue: Seq<Deferred<B>>)
        requires
            WidgetNode::<B>::well_founded(),
        ensures
            extends(queue, Self::mount(node, host, queue).queue),
            Self::mount(node, host, queue).tree.ticketed(Self::mount(node, host, queue).queue, 0),
        decreases node.rank(), node, 0nat,
    {
        match node {
            WidgetNode::Empty => {},
            WidgetNode::Component(c) => {
                let (fresh, created) = c.func.init_spec(host);
                let (produced, state, deps) = c.func.call_spec(created, c.spec_props(), fresh);
                Self::lemma_mount_tickets(produced, created, queue);
            },
            WidgetNode::Effect(e) => {},
            WidgetNode::Unit { unit, children } => {
                Self::lemma_mount_tickets(node.spec_children(), host, queue);
            },
            WidgetNode::Group(g) => {
                let named = Self::mount_all(g.named@, g.named@.len(), host, queue);
                let ordered = Self::mount_all(
                    g.ordered@,
                    g.ordered@.len(),
                    named.host,
                    named.queue,
                );
                Self::lemma_mount_all_tickets(g.named@, g.named@.len(), host, queue);
                Self::lemma_mount_all_tickets(g.ordered@, g.ordered@.len(), named.host, named.queue);
                Self::lemma_ticketed_all_mono(named.trees, named.queue, ordered.queue);
            },
        }
    }

    /// Mounting a sequence adds to the deferred work and hands out tickets
    /// for runs it deferred.
    pub proof fn lemma_mount_all_tickets(
        nodes: Seq<WidgetNode<B>>,
        n: nat,
        host: B::RunCtx,
        queue: Seq<Deferred<B>>,
    )
        requires
            WidgetNode::<B>::well_founded(),
            n <= nodes.len(),
        ensures
            ({
                let step = Self::mount_all(nodes, n, host, queue);
                &&& step.trees.len() == n
                &&& extends(queue, step.queue)
                &&& forall|i: int|
                    0 <= i < step.trees.len() ==> (#[trigger] step.trees[i]).ticketed(step.queue, 0)
            }),
        decreases WidgetNode::<B>::rank_all(nodes, nodes.len()), nodes, n,
    {
        if n > 0 {
            let before = Self::mount_all(nodes, (n - 1) as nat, host, queue);
            Self::lemma_mount_all_tickets(nodes, (n - 1) as nat, host, queue);
            WidgetNode::<B>::lemma_rank_all(nodes, nodes.len(), n - 1);
            let last = Self::mount(nodes[n - 1], before.host, before.queue);
            Self::lemma_mount_tickets(nodes[n - 1], before.host, before.queue);
            Self::lemma_ticketed_all_mono(before.trees, before.queue, last.queue);
        }
    }

    /// Unmounting adds to the deferred work.
    pub proof fn lemma_unmount_extends(self, host: B::RunCtx, queue: Seq<Deferred<B>>)
        ensures
            extends(queue, self.unmount(host, queue).queue),
        decreases self, 0nat,
    {
        match self {
            Tree::Empty => {},
            Tree::Component { template, result, state, deps } => {
                result.lemma_unmount_extends(host, queue);
            },
            Tree::Effect { .. } => {},
            Tree::Unit { unit, children } => {
                children.lemma_unmount_extends(host, queue);
            },
            Tree::Group { render_order, ordered, names, named } => {
                let first = Self::unmount_all(named, named.len(), host, queue);
                Self::lemma_unmount_all_extends(named, named.len(), host, queue);
                Self::lemma_unmount_all_extends(ordered, ordered.len(), first.host, first.queue);
            },
        }
    }

    /// Unmounting a sequence adds to the deferred work.
    pub proof fn lemma_unmount_all_extends(
        trees: Seq<Tree<B>>,
        n: nat,
        host: B::RunCtx,
        queue: Seq<Deferred<B>>,
    )
        ensures
            extends(queue, Self::unmount_all(trees, n, host, queue).queue),
        decreases trees, n,
    {
        if !(n == 0 || n > trees.len()) {
            let before = Self::unmount_all(trees, (n - 1) as nat, host, queue);
            Self::lemma_unmount_all_extends(trees, (n - 1) as nat, host, queue);
            trees[n - 1].lemma_unmount_extends(before.host, before.queue);
        }
    }

    /// Replacing a tree adds to the deferred work and hands out tickets for
    /// runs it deferred.
    pub proof fn lemma_replace_tickets(
        self,
        node: WidgetNode<B>,
        host: B::RunCtx,
        queue: Seq<Deferred<B>>,
    )
        requires
            WidgetNode::<B>::well_founded(),
        ensures
            extends(queue, self.replace(node, host, queue).queue),
            self.replace(node, host, queue).tree.ticketed(self.replace(node, host, queue).queue, 0),
    {
        let gone = self.unmount(host, queue);
        self.lemma_unmount_extends(host, queue);
        Self::lemma_mount_tickets(node, gone.host, gone.queue);
    }

    /// Recomputing an instance adds to the deferred work and keeps tickets
    /// good.
    pub proof fn lemma_recompute_tickets(
        template: WidgetComponent<B>,
        result: Tree<B>,
        state: B::State,
        host: B::RunCtx,
        queue: Seq<Deferred<B>>,
    )
        requires
            WidgetNode::<B>::well_founded(),
            result.ticketed(queue, 0),
        ensures
            ({
                let step = Self::recompute(template, result, state, host, queue);
                extends(queue, step.queue) && step.tree.ticketed(step.queue, 0)
            }),
        decreases template.func.rank(template.spec_props()) + 1, 0nat, template, 0nat,
    {
        let (produced, after, deps) = template.func.call_spec(host, template.spec_props(), state);
        result.law_diff_tickets(produced, host, queue);
    }

    /// Reconciliation adds to the deferred work and keeps tickets good:
    /// every ticket in the tree is the position of a run that is deferred.
    pub proof fn law_diff_tickets(self, node: WidgetNode<B>, host: B::RunCtx, queue: Seq<Deferred<B>>)
        requires
            WidgetNode::<B>::well_founded(),
            self.ticketed(queue, 0),
        ensures
            ({
                let step = self.diff(node, host, queue);
                extends(queue, step.queue) && step.tree.ticketed(step.queue, 0)
            }),
        decreases node.rank(), 1nat, node, 0nat,
    {
        self.lemma_replace_tickets(node, host, queue);
        match node {
            WidgetNode::Empty => {},
            WidgetNode::Component(c) => match self {
                Tree::Component { template, result, state, deps } => {
                    if template.func.identity() == c.func.identity() {
                        Self::lemma_recompute_tickets(
                            WidgetComponent { func: template.func, props: c.props },
                            *result,
                            state,
                            host,
                            queue,
                        );
                    }
                },
                _ => {},
            },
            WidgetNode::Effect(e) => {},
            WidgetNode::Unit { unit, children } => match self {
                Tree::Unit { unit: previous, children: mounted } => {
                    mounted.law_diff_tickets(node.spec_children(), host, queue);
                },
                _ => {},
            },
            WidgetNode::Group(g) => match self {
                Tree::Group { render_order, ordered, names, named } => {
                    Self::lemma_diff_group_tickets(ordered, names, named, g, host, queue);
                },
                _ => {},
            },
        }
    }

    /// Reconciling a group adds to the deferred work and keeps tickets
    /// good.
    pub proof fn lemma_diff_group_tickets(
        ordered: Seq<Tree<B>>,
        names: Seq<Seq<char>>,
        named: Seq<Tree<B>>,
        g: WidgetNodeGroup<B>,
        host: B::RunCtx,
        queue: Seq<Deferred<B>>,
    )
        requires
            WidgetNode::<B>::well_founded(),
            forall|i: int| 0 <= i < ordered.len() ==> (#[trigger] ordered[i]).ticketed(queue, 0),
            forall|i: int| 0 <= i < named.len() ==> (#[trigger] named[i]).ticketed(queue, 0),
        ensures
            ({
                let step = Self::diff_group(ordered, names, named, g, host, queue);
                extends(queue, step.queue) && step.tree.ticketed(step.queue, 0)
            }),
        decreases WidgetNode::Group(g).rank(), 1nat, g, 0nat,
    {
        let keep = if ordered.len() <= g.ordered@.len() {
            ordered.len()
        } else {
            g.ordered@.len()
        };
        let common = ordered.subrange(0, keep as int);
        let extra = ordered.subrange(keep as int, ordered.len() as int);
        let rest = g.ordered@.subrange(keep as int, g.ordered@.len() as int);
        let new_names = name_views(g.names@);
        let dropped = Self::unmount_all(extra, extra.len(), host, queue);
        let kept = Self::diff_all(common, g.ordered@, keep, dropped.host, dropped.queue);
        let added = Self::mount_all(rest, rest.len(), kept.host, kept.queue);
        let known = Self::diff_named(
            names,
            named,
            new_names,
            g.named@,
            named.len(),
            added.host,
            added.queue,
        );
        let fresh = Self::mount_missing(
            names,
            named.len(),
            new_names,
            g.named@,
            g.named@.len(),
            known.host,
            known.queue,
        );
        Self::lemma_unmount_all_extends(extra, extra.len(), host, queue);
        assert(forall|i: int| 0 <= i < keep ==> common[i] == ordered[i]);
        Self::lemma_ticketed_all_mono(common, queue, dropped.queue);
        Self::lemma_diff_all_tickets(common, g.ordered@, keep, dropped.host, dropped.queue);
        Self::lemma_mount_all_tickets(rest, rest.len(), kept.host, kept.queue);
        Self::lemma_ticketed_all_mono(named, queue, dropped.queue);
        Self::lemma_ticketed_all_mono(named, dropped.queue, kept.queue);
        Self::lemma_ticketed_all_mono(named, kept.queue, added.queue);
        Self::lemma_diff_named_tickets(
            names,
            named,
            new_names,
            g.named@,
            named.len(),
            added.host,
            added.queue,
        );
        Self::lemma_mount_missing_tickets(
            names,
            named.len(),
            new_names,
            g.named@,
            g.named@.len(),
            known.host,
            known.queue,
        );
        Self::lemma_ticketed_all_mono(kept.trees, kept.queue, added.queue);
        Self::lemma_ticketed_all_mono(kept.trees, added.queue, known.queue);
        Self::lemma_ticketed_all_mono(kept.trees, known.queue, fresh.queue);
        Self::lemma_ticketed_all_mono(added.trees, added.queue, known.queue);
        Self::lemma_ticketed_all_mono(added.trees, known.queue, fresh.queue);
        Self::lemma_ticketed_all_mono(known.trees, known.queue, fresh.queue);
        let after_ordered = kept.trees + added.trees;
        let after_named = known.trees + fresh.trees;
        assert forall|i: int| 0 <= i < after_ordered.len() implies (
        #[trigger] after_ordered[i]).ticketed(fresh.queue, 0) by {
            if i < kept.trees.len() {
                assert(kept.trees[i].ticketed(fresh.queue, 0));
            } else {
                assert(added.trees[i - kept.trees.len()].ticketed(fresh.queue, 0));
            }
        }
        assert forall|i: int| 0 <= i < after_named.len() implies (
        #[trigger] after_named[i]).ticketed(fresh.queue, 0) by {
            if i < known.trees.len() {
                assert(known.trees[i].ticketed(fresh.queue, 0));
            } else {
                assert(fresh.trees[i - known.trees.len()].ticketed(fresh.queue, 0));
            }
        }
    }

    /// Comparing by position adds to the deferred work and keeps tickets
    /// good.
    pub proof fn lemma_diff_all_tickets(
        trees: Seq<Tree<B>>,
        nodes: Seq<WidgetNode<B>>,
        n: nat,
        host: B::RunCtx,
        queue: Seq<Deferred<B>>,
    )
        requires
            WidgetNode::<B>::well_founded(),
            n <= trees.len(),
            n <= nodes.len(),
            forall|i: int| 0 <= i < trees.len() ==> (#[trigger] trees[i]).ticketed(queue, 0),
        ensures
            ({
                let step = Self::diff_all(trees, nodes, n, host, queue);
                &&& step.trees.len() == n
                &&& extends(queue, step.queue)
                &&& forall|i: int|
                    0 <= i < step.trees.len() ==> (#[trigger] step.trees[i]).ticketed(step.queue, 0)
            }),
        decreases WidgetNode::<B>::rank_all(nodes, nodes.len()), 1nat, nodes, n,
    {
        if n > 0 {
            let before = Self::diff_all(trees, nodes, (n - 1) as nat, host, queue);
            Self::lemma_diff_all_tickets(trees, nodes, (n - 1) as nat, host, queue);
            WidgetNode::<B>::lemma_rank_all(nodes, nodes.len(), n - 1);
            trees[n - 1].lemma_ticketed_mono(queue, 0, before.queue, 0);
            let last = trees[n - 1].diff(nodes[n - 1], before.host, before.queue);
            trees[n - 1].law_diff_tickets(nodes[n - 1], before.host, before.queue);
            Self::lemma_ticketed_all_mono(before.trees, before.queue, last.queue);
        }
    }

    /// Comparing by name adds to the deferred work and keeps tickets good.
    pub proof fn lemma_diff_named_tickets(
        names: Seq<Seq<char>>,
        named: Seq<Tree<B>>,
        new_names: Seq<Seq<char>>,
        nodes: Seq<WidgetNode<B>>,
        n: nat,
        host: B::RunCtx,
        queue: Seq<Deferred<B>>,
    )
        requires
            WidgetNode::<B>::well_founded(),
            n <= named.len(),
            forall|i: int| 0 <= i < named.len() ==> (#[trigger] named[i]).ticketed(queue, 0),
        ensures
            ({
                let step = Self::diff_named(names, named, new_names, nodes, n, host, queue);
                &&& extends(queue, step.queue)
                &&& forall|i: int|
                    0 <= i < step.trees.len() ==> (#[trigger] step.trees[i]).ticketed(step.queue, 0)
            }),
        decreases WidgetNode::<B>::rank_all(nodes, nodes.len()), 1nat, nodes, n,
    {
        if n > 0 {
            let before = Self::diff_named(
                names,
                named,
                new_names,
                nodes,
                (n - 1) as nat,
                host,
                queue,
            );
            Self::lemma_diff_named_tickets(
                names,
                named,
                new_names,
                nodes,
                (n - 1) as nat,
                host,
                queue,
            );
            named[n - 1].lemma_ticketed_mono(queue, 0, before.queue, 0);
            match counterpart(names, new_names, nodes.len(), n - 1) {
                Some(k) => {
                    new_names.index_of_first_ensures(names[n - 1]);
                    WidgetNode::<B>::lemma_rank_all(nodes, nodes.len(), k);
                    let last = named[n - 1].diff(nodes[k], before.host, before.queue);
                    named[n - 1].law_diff_tickets(nodes[k], before.host, before.queue);
                    Self::lemma_ticketed_all_mono(before.trees, before.queue, last.queue);
                },
                None => {
                    let gone = named[n - 1].unmount(before.host, before.queue);
                    named[n - 1].lemma_unmount_extends(before.host, before.queue);
                    Self::lemma_ticketed_all_mono(before.trees, before.queue, gone.queue);
                },
            }
        }
    }

    /// Mounting the children whose names are new adds to the deferred work
    /// and hands out tickets for runs it deferred.
    pub proof fn lemma_mount_missing_tickets(
        names: Seq<Seq<char>>,
        count: nat,
        new_names: Seq<Seq<char>>,
        nodes: Seq<WidgetNode<B>>,
        n: nat,
        host: B::RunCtx,
        queue: Seq<Deferred<B>>,
    )
        requires
            WidgetNode::<B>::well_founded(),
            n <= nodes.len(),
        ensures
            ({
                let step = Self::mount_missing(names, count, new_names, nodes, n, host, queue);
                &&& extends(queue, step.queue)
                &&& forall|i: int|
                    0 <= i < step.trees.len() ==> (#[trigger] step.trees[i]).ticketed(step.queue, 0)
            }),
        decreases n,
    {
        if n > 0 {
            let before = Self::mount_missing(
                names,
                count,
                new_names,
                nodes,
                (n - 1) as nat,
                host,
                queue,
            );
            Self::lemma_mount_missing_tickets(
                names,
                count,
                new_names,
                nodes,
                (n - 1) as nat,
                host,
                queue,
            );
            if is_missing(names, count, new_names, n - 1) {
                let last = Self::mount(nodes[n - 1], before.host, before.queue);
                Self::lemma_mount_tickets(nodes[n - 1], before.host, before.queue);
                Self::lemma_ticketed_all_mono(before.trees, before.queue, last.queue);
            }
        }
    }

    /// The traversal adds to the deferred work and keeps tickets good.
    pub proof fn law_process_tickets(self, host: B::RunCtx, queue: Seq<Deferred<B>>)
        requires
            WidgetNode::<B>::well_founded(),
            self.ticketed(queue, 0),
        ensures
            ({
                let step = self.process(host, queue);
                extends(queue, step.queue) && step.tree.ticketed(step.queue, 0)
            }),
        decreases self, 0nat,
    {
        match self {
            Tree::Empty => {},
            Tree::Component { template, result, state, deps } => {
                if Self::stale(template, state, deps, host) {
                    Self::lemma_recompute_tickets(template, *result, state, host, queue);
                } else {
                    result.law_process_tickets(host, queue);
                }
            },
            Tree::Effect { template, state, cleanup, pending } => {
                if !template.func.needs_recalc_spec(host, state) {
                    self.lemma_ticketed_mono(queue, 0, queue, 0);
                }
            },
            Tree::Unit { unit, children } => {
                children.law_process_tickets(host, queue);
            },
            Tree::Group { render_order, ordered, names, named } => {
                let first = Self::process_all(named, named.len(), host, queue);
                let second = Self::process_all(ordered, ordered.len(), first.host, first.queue);
                Self::lemma_process_all_tickets(named, named.len(), host, queue);
                Self::lemma_ticketed_all_mono(ordered, queue, first.queue);
                Self::lemma_process_all_tickets(ordered, ordered.len(), first.host, first.queue);
                Self::lemma_ticketed_all_mono(first.trees, first.queue, second.queue);
            },
        }
    }

    /// The traversal of a sequence adds to the deferred work and keeps
    /// tickets good.
    pub proof fn lemma_process_all_tickets(
        trees: Seq<Tree<B>>,
        n: nat,
        host: B::RunCtx,
        queue: Seq<Deferred<B>>,
    )
        requires
            WidgetNode::<B>::well_founded(),
            n <= trees.len(),
            forall|i: int| 0 <= i < trees.len() ==> (#[trigger] trees[i]).ticketed(queue, 0),
        ensures
            ({
                let step = Self::process_all(trees, n, host, queue);
                &&& step.trees.len() == n
                &&& extends(queue, step.queue)
                &&& forall|i: int|
                    0 <= i < step.trees.len() ==> (#[trigger] step.trees[i]).ticketed(step.queue, 0)
            }),
        decreases trees, n,
    {
        if n > 0 {
            let before = Self::process_all(trees, (n - 1) as nat, host, queue);
            Self::lemma_process_all_tickets(trees, (n - 1) as nat, host, queue);
            trees[n - 1].lemma_ticketed_mono(queue, 0, before.queue, 0);
            let last = trees[n - 1].process(before.host, before.queue);
            trees[n - 1].law_process_tickets(before.host, before.queue);
            Self::lemma_ticketed_all_mono(before.trees, before.queue, last.queue);
        }
    }

    /// The run for one ticket redeems that ticket wherever it is held.
    pub proof fn lemma_run_due_tickets(self, queue: Seq<Deferred<B>>, ticket: nat, host: B::RunCtx)
        requires
            self.ticketed(queue, ticket),
        ensures
            self.run_due(ticket, host).tree.ticketed(queue, ticket + 1),
        decreases self, 0nat,
    {
        match self {
            Tree::Empty => {},
            Tree::Component { template, result, state, deps } => {
                result.lemma_run_due_tickets(queue, ticket, host);
            },
            Tree::Effect { .. } => {},
            Tree::Unit { unit, children } => {
                children.lemma_run_due_tickets(queue, ticket, host);
            },
            Tree::Group { render_order, ordered, names, named } => {
                let first = Self::run_due_all(named, named.len(), ticket, host);
                Self::lemma_run_due_all_tickets(named, named.len(), queue, ticket, host);
                Self::lemma_run_due_all_tickets(ordered, ordered.len(), queue, ticket, first.host);
            },
        }
    }

    /// The run for one ticket redeems that ticket in every tree of a
    /// sequence.
    pub proof fn lemma_run_due_all_tickets(
        trees: Seq<Tree<B>>,
        n: nat,
        queue: Seq<Deferred<B>>,
        ticket: nat,
        host: B::RunCtx,
    )
        requires
            n <= trees.len(),
            forall|i: int| 0 <= i < trees.len() ==> (#[trigger] trees[i]).ticketed(queue, ticket),
        ensures
            ({
                let step = Self::run_due_all(trees, n, ticket, host);
                &&& step.trees.len() == n
                &&& forall|i: int|
                    0 <= i < step.trees.len() ==> (#[trigger] step.trees[i]).ticketed(
                        queue,
                        ticket + 1,
                    )
            }),
        decreases trees, n,
    {
        if n > 0 {
            let before = Self::run_due_all(trees, (n - 1) as nat, ticket, host);
            Self::lemma_run_due_all_tickets(trees, (n - 1) as nat, queue, ticket, host);
            trees[n - 1].lemma_run_due_tickets(queue, ticket, before.host);
        }
    }

    /// A ticket that is not the position of a run is held nowhere.
    pub proof fn lemma_skip_ticket(self, queue: Seq<Deferred<B>>, low: nat)
        requires
            self.ticketed(queue, low),
            low < queue.len(),
            !(queue[low as int] is Run),
        ensures
            self.ticketed(queue, low + 1),
        decreases self,
    {
        match self {
            Tree::Empty => {},
            Tree::Component { template, result, state, deps } => {
                result.lemma_skip_ticket(queue, low);
            },
            Tree::Effect { .. } => {},
            Tree::Unit { unit, children } => {
                children.lemma_skip_ticket(queue, low);
            },
            Tree::Group { render_order, ordered, names, named } => {
                assert forall|i: int| 0 <= i < named.len() implies (#[trigger] named[i]).ticketed(
                    queue,
                    low + 1,
                ) by {
                    named[i].lemma_skip_ticket(queue, low);
                }
                assert forall|i: int| 0 <= i < ordered.len() implies (
                #[trigger] ordered[i]).ticketed(queue, low + 1) by {
                    ordered[i].lemma_skip_ticket(queue, low);
                }
            },
        }
    }

    /// The first `n` pieces of deferred work redeem every ticket below
    /// `n`.
    pub proof fn lemma_flush_tickets(self, host: B::RunCtx, queue: Seq<Deferred<B>>, n: nat)
        requires
            self.ticketed(queue, 0),
            n <= queue.len(),
        ensures
            self.flush_upto(host, queue, n).tree.ticketed(queue, n),
        decreases n,
    {
        if n > 0 {
            let before = self.flush_upto(host, queue, (n - 1) as nat);
            self.lemma_flush_tickets(host, queue, (n - 1) as nat);
            match queue[n - 1] {
                Deferred::Cleanup(action) => {
                    before.tree.lemma_skip_ticket(queue, (n - 1) as nat);
                },
                Deferred::Run => {
                    before.tree.lemma_run_due_tickets(queue, (n - 1) as nat, before.host);
                },
            }
        }
    }

    /// Every run that a pass defers takes place in the pass: if no effect
    /// was due before, none is due after.
    pub proof fn law_pass_redeems(self, host: B::RunCtx)
        requires
            WidgetNode::<B>::well_founded(),
            self.at_ease(),
        ensures
            self.pass(host).tree.at_ease(),
    {
        let walked = self.process(host, seq![]);
        let told = B::mark_update_spec(walked.host);
        self.law_process_tickets(host, seq![]);
        walked.tree.lemma_flush_tickets(told, walked.queue, walked.queue.len());
        let done = walked.tree.flush(told, walked.queue);
        done.tree.lemma_no_ticket_left(walked.queue, walked.queue.len());
    }

    /// After an update, however many passes it took, no effect is due.
    pub proof fn law_update_redeems(self, host: B::RunCtx, limit: nat)
        requires
            WidgetNode::<B>::well_founded(),
            self.at_ease(),
        ensures
            self.settle(host, limit).tree.at_ease(),
        decreases limit,
    {
        if limit > 0 {
            let once = self.pass(host);
            self.law_pass_redeems(host);
            if self.unsettled(host) {
                once.tree.law_update_redeems(once.host, (limit - 1) as nat);
            }
        }
    }

    /// In the tree of an application that has started, no effect is due.
    pub proof fn law_start_redeems(node: WidgetNode<B>, host: B::RunCtx, limit: nat)
        requires
            WidgetNode::<B>::well_founded(),
        ensures
            Self::start(node, host, limit).tree.at_ease(),
    {
        let mounted = Self::mount(node, host, seq![]);
        Self::lemma_mount_tickets(node, host, seq![]);
        mounted.tree.lemma_flush_tickets(mounted.host, mounted.queue, mounted.queue.len());
        let first = mounted.tree.flush(mounted.host, mounted.queue);
        first.tree.lemma_no_ticket_left(mounted.queue, mounted.queue.len());
        first.tree.law_update_redeems(B::mark_update_spec(first.host), limit);
    }
}

} // verus!
