//! Law: every operation of the engine preserves the group invariant of the
//! mounted tree.
//!
//! In a mounted group names are unique and stand beside their children one
//! for one, and the render order refers to every child once and to nothing
//! else. The invariant is inherited from the descriptors: it holds of what
//! was mounted from, and reconciled with, descriptors that meet it.
use crate::backend::UiBackend;
use crate::dispatch::DynEffectFunc;
use crate::dispatch::DynWidgetFunc;
use crate::model::Deferred;
use crate::model::counterpart;
use crate::model::is_missing;
use crate::model::kept_names;
use crate::model::missing_names_upto;
use crate::model::Tree;
use crate::names::lemma_named_child;
use crate::names::lemma_names_after_diff;
use crate::node::group_wf;
use crate::node::name_views;
use crate::node::slot_in_range;
use crate::node::slot_views;
use crate::node::Slot;
use crate::node::WidgetComponent;
use crate::node::WidgetNode;
use crate::node::WidgetNodeGroup;
use vstd::prelude::*;

verus! {

impl<B: UiBackend> WidgetNode<B> where B::WidgetFn: DynWidgetFunc<B>, B::EffectFn: DynEffectFunc<B> {
    /// Every widget function yields descriptors whose groups meet the group
    /// invariant.
    pub open spec fn tidy() -> bool {
        forall|f: B::WidgetFn, ctx: B::RunCtx, props: B::Props, state: B::State|
            (#[trigger] f.call_spec(ctx, props, state)).0.wf()
    }
}

impl<B: UiBackend> Tree<B> where B::WidgetFn: DynWidgetFunc<B>, B::EffectFn: DynEffectFunc<B> {
    /// What is mounted from a descriptor that meets the group invariant
    /// meets it.
    pub proof fn law_mount_keeps_invariant(
        node: WidgetNode<B>,
        host: B::RunCtx,
        queue: Seq<Deferred<B>>,
    )
        requires
            WidgetNode::<B>::well_founded(),
            WidgetNode::<B>::tidy(),
            node.wf(),
        ensures
            Self::mount(node, host, queue).tree.wf(),
        decreases node.rank(), node, 0nat,
    {
        match node {
            WidgetNode::Empty => {},
            WidgetNode::Component(c) => {
                let made = c.func.init_spec(host);
                let called = c.func.call_spec(made.1, c.spec_props(), made.0);
                Self::law_mount_keeps_invariant(called.0, made.1, queue);
            },
            WidgetNode::Effect(_) => {},
            WidgetNode::Unit { unit, children } => {
                Self::law_mount_keeps_invariant(node.spec_children(), host, queue);
            },
            WidgetNode::Group(g) => {
                let named = Self::mount_all(g.named@, g.named@.len(), host, queue);
                Self::lemma_mount_all_wf(g.named@, g.named@.len(), host, queue);
                Self::lemma_mount_all_wf(g.ordered@, g.ordered@.len(), named.host, named.queue);
            },
        }
    }

    /// What is mounted from descriptors that meet the group invariant meets
    /// it, one tree for each descriptor.
    pub proof fn lemma_mount_all_wf(
        nodes: Seq<WidgetNode<B>>,
        n: nat,
        host: B::RunCtx,
        queue: Seq<Deferred<B>>,
    )
        requires
            WidgetNode::<B>::well_founded(),
            WidgetNode::<B>::tidy(),
            n <= nodes.len(),
            forall|i: int| 0 <= i < n ==> (#[trigger] nodes[i]).wf(),
        ensures
            Self::mount_all(nodes, n, host, queue).trees.len() == n,
            forall|i: int|
                0 <= i < n ==> (#[trigger] Self::mount_all(nodes, n, host, queue).trees[i]).wf(),
        decreases WidgetNode::<B>::rank_all(nodes, nodes.len()), nodes, n,
    {
        if n > 0 {
            let before = Self::mount_all(nodes, (n - 1) as nat, host, queue);
            Self::lemma_mount_all_wf(nodes, (n - 1) as nat, host, queue);
            WidgetNode::<B>::lemma_rank_all(nodes, nodes.len(), n - 1);
            Self::law_mount_keeps_invariant(nodes[n - 1], before.host, before.queue);
        }
    }

    /// Replacing a tree by the mounted form of a descriptor that meets the
    /// group invariant yields a tree that meets it.
    pub proof fn lemma_replace_wf(self, node: WidgetNode<B>, host: B::RunCtx, queue: Seq<Deferred<B>>)
        requires
            WidgetNode::<B>::well_founded(),
            WidgetNode::<B>::tidy(),
            node.wf(),
        ensures
            self.replace(node, host, queue).tree.wf(),
    {
        let gone = self.unmount(host, queue);
        Self::law_mount_keeps_invariant(node, gone.host, gone.queue);
    }

    /// Recomputing an instance whose result meets the group invariant
    /// yields an instance whose result meets it.
    pub proof fn lemma_recompute_wf(
        template: WidgetComponent<B>,
        result: Tree<B>,
        state: B::State,
        host: B::RunCtx,
        queue: Seq<Deferred<B>>,
    )
        requires
            WidgetNode::<B>::well_founded(),
            WidgetNode::<B>::tidy(),
            result.wf(),
        ensures
            Self::recompute(template, result, state, host, queue).tree.wf(),
        decreases template.func.rank(template.spec_props()) + 1, 0nat, template, 0nat,
    {
        let called = template.func.call_spec(host, template.spec_props(), state);
        result.law_diff_keeps_invariant(called.0, host, queue);
    }

    /// A tree that meets the group invariant, brought in line with a
    /// descriptor that meets it, meets it.
    pub proof fn law_diff_keeps_invariant(
        self,
        node: WidgetNode<B>,
        host: B::RunCtx,
        queue: Seq<Deferred<B>>,
    )
        requires
            WidgetNode::<B>::well_founded(),
            WidgetNode::<B>::tidy(),
            self.wf(),
            node.wf(),
        ensures
            self.diff(node, host, queue).tree.wf(),
        decreases node.rank(), 1nat, node, 0nat,
    {
        self.lemma_replace_wf(node, host, queue);
        match node {
            WidgetNode::Empty => {},
            WidgetNode::Component(c) => match self {
                Tree::Component { template, result, state, deps } => {
                    if template.func.identity() == c.func.identity() {
                        Self::lemma_recompute_wf(
                            WidgetComponent { func: template.func, props: c.props },
                            *result,
                            state,
                            host,
                            queue,
                        );
                    }
                },
                _ => {},
            },
            WidgetNode::Effect(e) => {},
            WidgetNode::Unit { unit, children } => match self {
                Tree::Unit { unit: previous, children: mounted } => {
                    mounted.law_diff_keeps_invariant(node.spec_children(), host, queue);
                },
                _ => {},
            },
            WidgetNode::Group(g) => match self {
                Tree::Group { render_order, ordered, names, named } => {
                    Self::lemma_diff_group_wf(ordered, names, named, g, host, queue);
                },
                _ => {},
            },
        }
    }

    /// A mounted group that meets the group invariant, brought in line with
    /// a group descriptor that meets it, meets it.
    pub proof fn lemma_diff_group_wf(
        ordered: Seq<Tree<B>>,
        names: Seq<Seq<char>>,
        named: Seq<Tree<B>>,
        g: WidgetNodeGroup<B>,
        host: B::RunCtx,
        queue: Seq<Deferred<B>>,
    )
        requires
            WidgetNode::<B>::well_founded(),
            WidgetNode::<B>::tidy(),
            names.len() == named.len(),
            crate::node::distinct(names),
            forall|i: int| 0 <= i < ordered.len() ==> (#[trigger] ordered[i]).wf(),
            forall|i: int| 0 <= i < named.len() ==> (#[trigger] named[i]).wf(),
            WidgetNode::Group(g).wf(),
        ensures
            Self::diff_group(ordered, names, named, g, host, queue).tree.wf(),
        decreases WidgetNode::Group(g).rank(), 1nat, g, 0nat,
    {
        let step = Self::diff_group(ordered, names, named, g, host, queue);
        let keep = if ordered.len() <= g.ordered@.len() {
            ordered.len()
        } else {
            g.ordered@.len()
        };
        let common = ordered.subrange(0, keep as int);
        let extra = ordered.subrange(keep as int, ordered.len() as int);
        let rest = g.ordered@.subrange(keep as int, g.ordered@.len() as int);
        let new_names = name_views(g.names@);
        let order = slot_views(g.render_order@);
        let dropped = Self::unmount_all(extra, extra.len(), host, queue);
        let kept = Self::diff_all(common, g.ordered@, keep, dropped.host, dropped.queue);
        let added = Self::mount_all(rest, rest.len(), kept.host, kept.queue);
        let known = Self::diff_named(
            names,
            named,
            new_names,
            g.named@,
            named.len(),
            added.host,
            added.queue,
        );
        let fresh = Self::mount_missing(
            names,
            named.len(),
            new_names,
            g.named@,
            g.named@.len(),
            known.host,
            known.queue,
        );
        assert(forall|i: int| 0 <= i < keep ==> common[i] == ordered[i]);
        Self::lemma_diff_all_wf(common, g.ordered@, keep, dropped.host, dropped.queue);
        assert(forall|i: int| 0 <= i < rest.len() ==> rest[i] == g.ordered@[keep + i]);
        Self::lemma_mount_all_wf(rest, rest.len(), kept.host, kept.queue);
        Self::lemma_diff_named_wf(
            names,
            named,
            new_names,
            g.named@,
            named.len(),
            added.host,
            added.queue,
        );
        Self::lemma_mount_missing_wf(
            names,
            named.len(),
            new_names,
            g.named@,
            g.named@.len(),
            known.host,
            known.queue,
        );
        lemma_names_after_diff(names, new_names);
        let after_ordered = kept.trees + added.trees;
        let after_named = known.trees + fresh.trees;
        let after_names = kept_names(names, named.len(), new_names, g.named@.len(), named.len())
            + missing_names_upto(names, named.len(), new_names, g.named@.len());
        assert(after_ordered.len() == g.ordered@.len());
        assert forall|k: int| 0 <= k < order.len() implies slot_in_range(
            #[trigger] order[k],
            after_ordered.len(),
            after_names,
        ) by {
            assert(slot_in_range(order[k], g.ordered@.len(), new_names));
            match order[k] {
                Slot::Index(_) => {},
                Slot::Name(s) => {
                    let i = choose|i: int| 0 <= i < new_names.len() && new_names[i] == s;
                    assert(after_names.contains(new_names[i]));
                },
            }
        }
        assert forall|j: int| 0 <= j < after_names.len() implies order.contains(
            Slot::Name(#[trigger] after_names[j]),
        ) by {
            assert(new_names.contains(after_names[j]));
            let i = choose|i: int| 0 <= i < new_names.len() && new_names[i] == after_names[j];
            assert(order.contains(Slot::Name(new_names[i])));
        }
        assert(group_wf(order, after_ordered.len(), after_names, after_named.len()));
        assert forall|i: int| 0 <= i < after_ordered.len() implies (#[trigger] after_ordered[i]).wf() by {
            if i < kept.trees.len() {
                assert(kept.trees[i].wf());
            } else {
                assert(added.trees[i - kept.trees.len()].wf());
            }
        }
        assert forall|i: int| 0 <= i < after_named.len() implies (#[trigger] after_named[i]).wf() by {
            if i < known.trees.len() {
                assert(known.trees[i].wf());
            } else {
                assert(fresh.trees[i - known.trees.len()].wf());
            }
        }
    }

    /// Trees that meet the group invariant, compared by position with
    /// descriptors that meet it, meet it.
    pub proof fn lemma_diff_all_wf(
        trees: Seq<Tree<B>>,
        nodes: Seq<WidgetNode<B>>,
        n: nat,
        host: B::RunCtx,
        queue: Seq<Deferred<B>>,
    )
        requires
            WidgetNode::<B>::well_founded(),
            WidgetNode::<B>::tidy(),
            n <= trees.len(),
            n <= nodes.len(),
            forall|i: int| 0 <= i < n ==> (#[trigger] trees[i]).wf(),
            forall|i: int| 0 <= i < n ==> (#[trigger] nodes[i]).wf(),
        ensures
            Self::diff_all(trees, nodes, n, host, queue).trees.len() == n,
            forall|i: int|
                0 <= i < n ==> (#[trigger] Self::diff_all(
                    trees,
                    nodes,
                    n,
                    host,
                    queue,
                ).trees[i]).wf(),
        decreases WidgetNode::<B>::rank_all(nodes, nodes.len()), 1nat, nodes, n,
    {
        if n > 0 {
            let before = Self::diff_all(trees, nodes, (n - 1) as nat, host, queue);
            Self::lemma_diff_all_wf(trees, nodes, (n - 1) as nat, host, queue);
            WidgetNode::<B>::lemma_rank_all(nodes, nodes.len(), n - 1);
            trees[n - 1].law_diff_keeps_invariant(nodes[n - 1], before.host, before.queue);
        }
    }

    /// The named children that stay meet the group invariant, and there is
    /// one for each name that stays.
    pub proof fn lemma_diff_named_wf(
        names: Seq<Seq<char>>,
        named: Seq<Tree<B>>,
        new_names: Seq<Seq<char>>,
        nodes: Seq<WidgetNode<B>>,
        n: nat,
        host: B::RunCtx,
        queue: Seq<Deferred<B>>,
    )
        requires
            WidgetNode::<B>::well_founded(),
            WidgetNode::<B>::tidy(),
            n <= named.len(),
            forall|i: int| 0 <= i < n ==> (#[trigger] named[i]).wf(),
            forall|i: int| 0 <= i < nodes.len() ==> (#[trigger] nodes[i]).wf(),
        ensures
            ({
                let step = Self::diff_named(names, named, new_names, nodes, n, host, queue);
                &&& step.trees.len() == kept_names(
                    names,
                    named.len(),
                    new_names,
                    nodes.len(),
                    n,
                ).len()
                &&& forall|i: int| 0 <= i < step.trees.len() ==> (#[trigger] step.trees[i]).wf()
            }),
        decreases WidgetNode::<B>::rank_all(nodes, nodes.len()), 1nat, nodes, n,
    {
        if n > 0 {
            let before = Self::diff_named(
                names,
                named,
                new_names,
                nodes,
                (n - 1) as nat,
                host,
                queue,
            );
            Self::lemma_diff_named_wf(names, named, new_names, nodes, (n - 1) as nat, host, queue);
            match counterpart(names, new_names, nodes.len(), n - 1) {
                Some(k) => {
                    lemma_named_child(new_names, nodes.len(), names[n - 1]);
                    WidgetNode::<B>::lemma_rank_all(nodes, nodes.len(), k);
                    named[n - 1].law_diff_keeps_invariant(nodes[k], before.host, before.queue);
                },
                None => {},
            }
        }
    }

    /// The named children that are mounted afresh meet the group invariant,
    /// and there is one for each name that is new.
    pub proof fn lemma_mount_missing_wf(
        names: Seq<Seq<char>>,
        count: nat,
        new_names: Seq<Seq<char>>,
        nodes: Seq<WidgetNode<B>>,
        n: nat,
        host: B::RunCtx,
        queue: Seq<Deferred<B>>,
    )
        requires
            WidgetNode::<B>::well_founded(),
            WidgetNode::<B>::tidy(),
            n <= nodes.len(),
            forall|i: int| 0 <= i < nodes.len() ==> (#[trigger] nodes[i]).wf(),
        ensures
            ({
                let step = Self::mount_missing(names, count, new_names, nodes, n, host, queue);
                &&& step.trees.len() == missing_names_upto(names, count, new_names, n).len()
                &&& forall|i: int| 0 <= i < step.trees.len() ==> (#[trigger] step.trees[i]).wf()
            }),
        decreases n,
    {
        if n > 0 {
            let before = Self::mount_missing(
                names,
                count,
                new_names,
                nodes,
                (n - 1) as nat,
                host,
                queue,
            );
            Self::lemma_mount_missing_wf(names, count, new_names, nodes, (n - 1) as nat, host, queue);
            if is_missing(names, count, new_names, n - 1) {
                Self::law_mount_keeps_invariant(nodes[n - 1], before.host, before.queue);
            }
        }
    }

    /// The traversal preserves the group invariant.
    pub proof fn law_process_keeps_invariant(self, host: B::RunCtx, queue: Seq<Deferred<B>>)
        requires
            WidgetNode::<B>::well_founded(),
            WidgetNode::<B>::tidy(),
            self.wf(),
        ensures
            self.process(host, queue).tree.wf(),
        decreases self, 0nat,
    {
        match self {
            Tree::Empty => {},
            Tree::Component { template, result, state, deps } => {
                if Self::stale(template, state, deps, host) {
                    Self::lemma_recompute_wf(template, *result, state, host, queue);
                } else {
                    result.law_process_keeps_invariant(host, queue);
                }
            },
            Tree::Effect { .. } => {},
            Tree::Unit { unit, children } => {
                children.law_process_keeps_invariant(host, queue);
            },
            Tree::Group { render_order, ordered, names, named } => {
                let first = Self::process_all(named, named.len(), host, queue);
                Self::lemma_process_all_wf(named, named.len(), host, queue);
                Self::lemma_process_all_wf(ordered, ordered.len(), first.host, first.queue);
            },
        }
    }

    /// The traversal of a sequence preserves the group invariant.
    pub proof fn lemma_process_all_wf(
        trees: Seq<Tree<B>>,
        n: nat,
        host: B::RunCtx,
        queue: Seq<Deferred<B>>,
    )
        requires
            WidgetNode::<B>::well_founded(),
            WidgetNode::<B>::tidy(),
            n <= trees.len(),
            forall|i: int| 0 <= i < n ==> (#[trigger] trees[i]).wf(),
        ensures
            Self::process_all(trees, n, host, queue).trees.len() == n,
            forall|i: int|
                0 <= i < n ==> (#[trigger] Self::process_all(trees, n, host, queue).trees[i]).wf(),
        decreases trees, n,
    {
        if n > 0 {
            let before = Self::process_all(trees, (n - 1) as nat, host, queue);
            Self::lemma_process_all_wf(trees, (n - 1) as nat, host, queue);
            trees[n - 1].law_process_keeps_invariant(before.host, before.queue);
        }
    }

    /// Running effects preserves the group invariant.
    pub proof fn lemma_run_due_wf(self, ticket: nat, host: B::RunCtx)
        requires
            self.wf(),
        ensures
            self.run_due(ticket, host).tree.wf(),
        decreases self, 0nat,
    {
        match self {
            Tree::Empty => {},
            Tree::Component { template, result, state, deps } => {
                result.lemma_run_due_wf(ticket, host);
            },
            Tree::Effect { .. } => {},
            Tree::Unit { unit, children } => {
                children.lemma_run_due_wf(ticket, host);
            },
            Tree::Group { render_order, ordered, names, named } => {
                let first = Self::run_due_all(named, named.len(), ticket, host);
                Self::lemma_run_due_all_wf(named, named.len(), ticket, host);
                Self::lemma_run_due_all_wf(ordered, ordered.len(), ticket, first.host);
            },
        }
    }

    /// Running the effects of a sequence preserves the group invariant.
    pub proof fn lemma_run_due_all_wf(trees: Seq<Tree<B>>, n: nat, ticket: nat, host: B::RunCtx)
        requires
            n <= trees.len(),
            forall|i: int| 0 <= i < n ==> (#[trigger] trees[i]).wf(),
        ensures
            Self::run_due_all(trees, n, ticket, host).trees.len() == n,
            forall|i: int|
                0 <= i < n ==> (#[trigger] Self::run_due_all(trees, n, ticket, host).trees[i]).wf(),
        decreases trees, n,
    {
        if n > 0 {
            let before = Self::run_due_all(trees, (n - 1) as nat, ticket, host);
            Self::lemma_run_due_all_wf(trees, (n - 1) as nat, ticket, host);
            trees[n - 1].lemma_run_due_wf(ticket, before.host);
        }
    }

    /// The deferred work of a pass preserves the group invariant.
    pub proof fn lemma_flush_wf(self, host: B::RunCtx, queue: Seq<Deferred<B>>, n: nat)
        requires
            self.wf(),
        ensures
            self.flush_upto(host, queue, n).tree.wf(),
        decreases n,
    {
        if !(n == 0 || n > queue.len()) {
            let before = self.flush_upto(host, queue, (n - 1) as nat);
            self.lemma_flush_wf(host, queue, (n - 1) as nat);
            before.tree.lemma_run_due_wf((n - 1) as nat, before.host);
        }
    }

    /// An update preserves the group invariant, however many passes it
    /// takes.
    pub proof fn law_update_keeps_invariant(self, host: B::RunCtx, limit: nat)
        requires
            WidgetNode::<B>::well_founded(),
            WidgetNode::<B>::tidy(),
            self.wf(),
        ensures
            self.pass(host).tree.wf(),
            self.settle(host, limit).tree.wf(),
        decreases limit,
    {
        let walked = self.process(host, seq![]);
        self.law_process_keeps_invariant(host, seq![]);
        let told = B::mark_update_spec(walked.host);
        walked.tree.lemma_flush_wf(told, walked.queue, walked.queue.len());
        if limit > 0 && self.unsettled(host) {
            let once = self.pass(host);
            once.tree.law_update_keeps_invariant(once.host, (limit - 1) as nat);
        }
    }

    /// An application started from a descriptor that meets the group
    /// invariant holds a tree that meets it.
    pub proof fn law_start_keeps_invariant(node: WidgetNode<B>, host: B::RunCtx, limit: nat)
        requires
            WidgetNode::<B>::well_founded(),
            WidgetNode::<B>::tidy(),
            node.wf(),
        ensures
            Self::start(node, host, limit).tree.wf(),
    {
        let mounted = Self::mount(node, host, seq![]);
        Self::law_mount_keeps_invariant(node, host, seq![]);
        mounted.tree.lemma_flush_wf(mounted.host, mounted.queue, mounted.queue.len());
        let first = mounted.tree.flush(mounted.host, mounted.queue);
        first.tree.law_update_keeps_invariant(B::mark_update_spec(first.host), limit);
    }
}

} // verus!
