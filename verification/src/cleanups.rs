//! Law: every cleanup action that a run of an effect hands back is run
//! once, neither never nor twice.
//!
//! A cleanup action is owed from the run that handed it back until it is
//! run. Until then it is held by its effect or, once the effect is
//! unmounted, waits in the deferred work. Reconciliation moves owed cleanup
//! actions from the tree to the deferred work and neither runs nor forgets
//! any; the deferred work runs them.
use crate::backend::UiBackend;
use crate::dispatch::DynEffectFunc;
use crate::dispatch::DynWidgetFunc;
use crate::effect_order::cleanups;
use crate::effect_order::lemma_runs_add;
use crate::effect_order::lemma_runs_push;
use crate::effect_order::runs;
use crate::model::counterpart;
use crate::model::is_missing;
use crate::model::Deferred;
use crate::model::Event;
use crate::model::Tree;
use crate::node::name_views;
use crate::node::WidgetComponent;
use crate::node::WidgetNode;
use crate::node::WidgetNodeGroup;
use vstd::prelude::*;

verus! {

/// The number of cleanup actions among the first `n` pieces of deferred
/// work.
pub open spec fn queued<B: UiBackend>(queue: Seq<Deferred<B>>, n: nat) -> nat
    decreases n,
{
    if n == 0 || n > queue.len() {
        0
    } else {
        queued(queue, (n - 1) as nat) + if queue[n - 1] is Cleanup {
            1nat
        } else {
            0nat
        }
    }
}

/// Counting the cleanup actions among the first `n` pieces of deferred work
/// pays no heed to a piece appended behind them.
pub proof fn lemma_queued_frame<B: UiBackend>(queue: Seq<Deferred<B>>, last: Deferred<B>, n: nat)
    requires
        n <= queue.len(),
    ensures
        queued(queue.push(last), n) == queued(queue, n),
    decreases n,
{
    if n > 0 {
        lemma_queued_frame(queue, last, (n - 1) as nat);
    }
}

/// The cleanup actions in a list of deferred work that ends with `last`.
pub proof fn lemma_queued_push<B: UiBackend>(queue: Seq<Deferred<B>>, last: Deferred<B>)
    ensures
        queued(queue.push(last), queue.len() + 1) == queued(queue, queue.len()) + if last
            is Cleanup {
            1nat
        } else {
            0nat
        },
{
    lemma_queued_frame(queue, last, queue.len());
}

impl<B: UiBackend> Tree<B> {
    /// The number of effects in the tree that hold a cleanup action.
    pub open spec fn held(self) -> nat
        decreases self, 0nat,
    {
        match self {
            Tree::Empty => 0,
            Tree::Component { template, result, state, deps } => result.held(),
            Tree::Effect { template, state, cleanup, pending } => if cleanup is Some {
                1
            } else {
                0
            },
            Tree::Unit { unit, children } => children.held(),
            Tree::Group { render_order, ordered, names, named } => Self::held_all(
                named,
                named.len(),
            ) + Self::held_all(ordered, ordered.len()),
        }
    }

    /// The number of effects in the first `n` trees of `trees` that hold a
    /// cleanup action.
    pub open spec fn held_all(trees: Seq<Tree<B>>, n: nat) -> nat
        decreases trees, n,
    {
        if n == 0 || n > trees.len() {
            0
        } else {
            Self::held_all(trees, (n - 1) as nat) + trees[n - 1].held()
        }
    }

    /// The cleanup actions that are owed: those held in the tree and those
    /// waiting in the deferred work.
    pub open spec fn owed(self, queue: Seq<Deferred<B>>) -> nat {
        self.held() + queued(queue, queue.len())
    }

    /// Counting held cleanup actions among the first `k` trees pays no heed
    /// to a tree appended behind them.
    pub proof fn lemma_held_frame(s: Seq<Tree<B>>, x: Tree<B>, k: nat)
        requires
            k <= s.len(),
        ensures
            Self::held_all(s.push(x), k) == Self::held_all(s, k),
        decreases k,
    {
        if k > 0 {
            Self::lemma_held_frame(s, x, (k - 1) as nat);
        }
    }

    /// The held cleanup actions of a sequence that ends with `x`.
    pub proof fn lemma_held_push(s: Seq<Tree<B>>, x: Tree<B>)
        ensures
            Self::held_all(s.push(x), s.len() + 1) == Self::held_all(s, s.len()) + x.held(),
    {
        Self::lemma_held_frame(s, x, s.len());
    }

    /// The held cleanup actions of a concatenation.
    pub proof fn lemma_held_add(a: Seq<Tree<B>>, b: Seq<Tree<B>>)
        ensures
            Self::held_all(a + b, (a + b).len()) == Self::held_all(a, a.len()) + Self::held_all(
                b,
                b.len(),
            ),
        decreases b.len(),
    {
        if b.len() == 0 {
            assert(a + b =~= a);
        } else {
            let front = b.drop_last();
            Self::lemma_held_add(a, front);
            assert(a + b =~= (a + front).push(b.last()));
            assert(b =~= front.push(b.last()));
            Self::lemma_held_push(a + front, b.last());
            Self::lemma_held_push(front, b.last());
        }
    }
}

/// Nothing in `log` is the run of an effect or of a cleanup action.
pub open spec fn quiet(log: Seq<Event>) -> bool {
    runs(log) == 0 && cleanups(log) == 0
}

/// Two records without runs make one without runs.
pub proof fn lemma_quiet_add(a: Seq<Event>, b: Seq<Event>)
    requires
        quiet(a),
        quiet(b),
    ensures
        quiet(a + b),
{
    lemma_runs_add(a, b);
}

impl<B: UiBackend> Tree<B> where B::WidgetFn: DynWidgetFunc<B>, B::EffectFn: DynEffectFunc<B> {
    /// What is mounted holds no cleanup action, and mounting defers none.
    pub proof fn lemma_mount_owes(node: WidgetNode<B>, host: B::RunCtx, queue: Seq<Deferred<B>>)
        requires
            WidgetNode::<B>::well_founded(),
        ensures
            ({
                let step = Self::mount(node, host, queue);
                &&& step.tree.held() == 0
                &&& queued(step.queue, step.queue.len()) == queued(queue, queue.len())
                &&& quiet(step.log)
            }),
        decreases node.rank(), node, 0nat,
    {
        let step = Self::mount(node, host, queue);
        match node {
            WidgetNode::Empty => {
                assert(step.log =~= Seq::<Event>::empty());
            },
            WidgetNode::Component(c) => {
                let (fresh, created) = c.func.init_spec(host);
                let (produced, state, deps) = c.func.call_spec(created, c.spec_props(), fresh);
                let inner = Self::mount(produced, created, queue);
                Self::lemma_mount_owes(produced, created, queue);
                let init = Event::Init(c.func.identity());
                let call = Event::Call(c.func.identity());
                let head = Seq::<Event>::empty().push(init).push(call);
                lemma_runs_push(Seq::<Event>::empty(), init);
                lemma_runs_push(Seq::<Event>::empty().push(init), call);
                lemma_runs_add(head, inner.log);
                assert(step.log =~= head + inner.log);
            },
            WidgetNode::Effect(e) => {
                lemma_runs_push(Seq::<Event>::empty(), Event::EffectInit(e.func.identity()));
                assert(step.log =~= Seq::<Event>::empty().push(
                    Event::EffectInit(e.func.identity()),
                ));
                lemma_queued_push(queue, Deferred::Run);
            },
            WidgetNode::Unit { unit, children } => {
                Self::lemma_mount_owes(node.spec_children(), host, queue);
            },
            WidgetNode::Group(g) => {
                let named = Self::mount_all(g.named@, g.named@.len(), host, queue);
                let ordered = Self::mount_all(
                    g.ordered@,
                    g.ordered@.len(),
                    named.host,
                    named.queue,
                );
                Self::lemma_mount_all_owes(g.named@, g.named@.len(), host, queue);
                Self::lemma_mount_all_owes(g.ordered@, g.ordered@.len(), named.host, named.queue);
                lemma_runs_add(named.log, ordered.log);
            },
        }
    }

    /// What is mounted from a sequence holds no cleanup action, and
    /// mounting defers none.
    pub proof fn lemma_mount_all_owes(
        nodes: Seq<WidgetNode<B>>,
        n: nat,
        host: B::RunCtx,
        queue: Seq<Deferred<B>>,
    )
        requires
            WidgetNode::<B>::well_founded(),
            n <= nodes.len(),
        ensures
            ({
                let step = Self::mount_all(nodes, n, host, queue);
                &&& step.trees.len() == n
                &&& Self::held_all(step.trees, n) == 0
                &&& queued(step.queue, step.queue.len()) == queued(queue, queue.len())
                &&& quiet(step.log)
            }),
        decreases WidgetNode::<B>::rank_all(nodes, nodes.len()), nodes, n,
    {
        if n > 0 {
            let before = Self::mount_all(nodes, (n - 1) as nat, host, queue);
            Self::lemma_mount_all_owes(nodes, (n - 1) as nat, host, queue);
            WidgetNode::<B>::lemma_rank_all(nodes, nodes.len(), n - 1);
            let last = Self::mount(nodes[n - 1], before.host, before.queue);
            Self::lemma_mount_owes(nodes[n - 1], before.host, before.queue);
            lemma_runs_add(before.log, last.log);
            Self::lemma_held_push(before.trees, last.tree);
        } else {
            assert(Self::mount_all(nodes, n, host, queue).log =~= Seq::<Event>::empty());
        }
    }

    /// Unmounting moves every held cleanup action into the deferred work
    /// and runs none.
    pub proof fn lemma_unmount_owes(self, host: B::RunCtx, queue: Seq<Deferred<B>>)
        ensures
            ({
                let step = self.unmount(host, queue);
                &&& queued(step.queue, step.queue.len()) == queued(queue, queue.len())
                    + self.held()
                &&& quiet(step.log)
            }),
        decreases self, 0nat,
    {
        let step = self.unmount(host, queue);
        match self {
            Tree::Empty => {
                assert(step.log =~= Seq::<Event>::empty());
            },
            Tree::Component { template, result, state, deps } => {
                let inner = result.unmount(host, queue);
                result.lemma_unmount_owes(host, queue);
                lemma_runs_push(inner.log, Event::Deinit(template.func.identity()));
            },
            Tree::Effect { template, state, cleanup, pending } => {
                assert(step.log =~= Seq::<Event>::empty());
                match cleanup {
                    Some(action) => {
                        lemma_queued_push(queue, Deferred::Cleanup(action));
                    },
                    None => {},
                }
            },
            Tree::Unit { unit, children } => {
                children.lemma_unmount_owes(host, queue);
            },
            Tree::Group { render_order, ordered, names, named } => {
                let first = Self::unmount_all(named, named.len(), host, queue);
                let second = Self::unmount_all(ordered, ordered.len(), first.host, first.queue);
                Self::lemma_unmount_all_owes(named, named.len(), host, queue);
                Self::lemma_unmount_all_owes(ordered, ordered.len(), first.host, first.queue);
                lemma_runs_add(first.log, second.log);
            },
        }
    }

    /// Unmounting a sequence moves every held cleanup action into the
    /// deferred work and runs none.
    pub proof fn lemma_unmount_all_owes(
        trees: Seq<Tree<B>>,
        n: nat,
        host: B::RunCtx,
        queue: Seq<Deferred<B>>,
    )
        requires
            n <= trees.len(),
        ensures
            ({
                let step = Self::unmount_all(trees, n, host, queue);
                &&& queued(step.queue, step.queue.len()) == queued(queue, queue.len())
                    + Self::held_all(trees, n)
                &&& quiet(step.log)
            }),
        decreases trees, n,
    {
        if n > 0 {
            let before = Self::unmount_all(trees, (n - 1) as nat, host, queue);
            Self::lemma_unmount_all_owes(trees, (n - 1) as nat, host, queue);
            let last = trees[n - 1].unmount(before.host, before.queue);
            trees[n - 1].lemma_unmount_owes(before.host, before.queue);
            lemma_runs_add(before.log, last.log);
        } else {
            assert(Self::unmount_all(trees, n, host, queue).log =~= Seq::<Event>::empty());
        }
    }

    /// Replacing a tree neither runs nor forgets a cleanup action.
    pub proof fn lemma_replace_owes(
        self,
        node: WidgetNode<B>,
        host: B::RunCtx,
        queue: Seq<Deferred<B>>,
    )
        requires
            WidgetNode::<B>::well_founded(),
        ensures
            ({
                let step = self.replace(node, host, queue);
                &&& step.tree.owed(step.queue) == self.owed(queue)
                &&& quiet(step.log)
            }),
    {
        let gone = self.unmount(host, queue);
        let fresh = Self::mount(node, gone.host, gone.queue);
        self.lemma_unmount_owes(host, queue);
        Self::lemma_mount_owes(node, gone.host, gone.queue);
        lemma_runs_add(gone.log, fresh.log);
    }

    /// Recomputing an instance neither runs nor forgets a cleanup action.
    pub proof fn lemma_recompute_owes(
        template: WidgetComponent<B>,
        result: Tree<B>,
        state: B::State,
        host: B::RunCtx,
        queue: Seq<Deferred<B>>,
    )
        requires
            WidgetNode::<B>::well_founded(),
        ensures
            ({
                let step = Self::recompute(template, result, state, host, queue);
                &&& step.tree.owed(step.queue) == result.owed(queue)
                &&& quiet(step.log)
            }),
        decreases template.func.rank(template.spec_props()) + 1, 0nat, template, 0nat,
    {
        let step = Self::recompute(template, result, state, host, queue);
        let (produced, after, deps) = template.func.call_spec(host, template.spec_props(), state);
        let inner = result.diff(produced, host, queue);
        result.law_diff_owes(produced, host, queue);
        let call = Event::Call(template.func.identity());
        let head = Seq::<Event>::empty().push(call);
        lemma_runs_push(Seq::<Event>::empty(), call);
        lemma_runs_add(head, inner.log);
        assert(step.log =~= head + inner.log);
    }

    /// Reconciliation neither runs nor forgets a cleanup action: what the
    /// tree held before is held after or waits in the deferred work.
    pub proof fn law_diff_owes(self, node: WidgetNode<B>, host: B::RunCtx, queue: Seq<Deferred<B>>)
        requires
            WidgetNode::<B>::well_founded(),
        ensures
            ({
                let step = self.diff(node, host, queue);
                &&& step.tree.owed(step.queue) == self.owed(queue)
                &&& quiet(step.log)
            }),
        decreases node.rank(), 1nat, node, 0nat,
    {
        let step = self.diff(node, host, queue);
        self.lemma_replace_owes(node, host, queue);
        match node {
            WidgetNode::Empty => {},
            WidgetNode::Component(c) => match self {
                Tree::Component { template, result, state, deps } => {
                    if template.func.identity() == c.func.identity() {
                        Self::lemma_recompute_owes(
                            WidgetComponent { func: template.func, props: c.props },
                            *result,
                            state,
                            host,
                            queue,
                        );
                    }
                },
                _ => {},
            },
            WidgetNode::Effect(e) => match self {
                Tree::Effect { template, state, cleanup, pending } => {
                    if template.func.identity() == e.func.identity() {
                        assert(step.log =~= Seq::<Event>::empty());
                        lemma_queued_push(queue, Deferred::Run);
                    }
                },
                _ => {},
            },
            WidgetNode::Unit { unit, children } => match self {
                Tree::Unit { unit: previous, children: mounted } => {
                    mounted.law_diff_owes(node.spec_children(), host, queue);
                },
                _ => {},
            },
            WidgetNode::Group(g) => match self {
                Tree::Group { render_order, ordered, names, named } => {
                    Self::lemma_diff_group_owes(ordered, names, named, g, host, queue);
                },
                _ => {},
            },
        }
    }

    /// Reconciling a group neither runs nor forgets a cleanup action.
    pub proof fn lemma_diff_group_owes(
        ordered: Seq<Tree<B>>,
        names: Seq<Seq<char>>,
        named: Seq<Tree<B>>,
        g: WidgetNodeGroup<B>,
        host: B::RunCtx,
        queue: Seq<Deferred<B>>,
    )
        requires
            WidgetNode::<B>::well_founded(),
        ensures
            ({
                let step = Self::diff_group(ordered, names, named, g, host, queue);
                &&& step.tree.owed(step.queue) == Self::held_all(named, named.len())
                    + Self::held_all(ordered, ordered.len()) + queued(queue, queue.len())
                &&& quiet(step.log)
            }),
        decreases WidgetNode::Group(g).rank(), 1nat, g, 0nat,
    {
        let keep = if ordered.len() <= g.ordered@.len() {
            ordered.len()
        } else {
            g.ordered@.len()
        };
        let common = ordered.subrange(0, keep as int);
        let extra = ordered.subrange(keep as int, ordered.len() as int);
        let rest = g.ordered@.subrange(keep as int, g.ordered@.len() as int);
        let new_names = name_views(g.names@);
        let dropped = Self::unmount_all(extra, extra.len(), host, queue);
        let kept = Self::diff_all(common, g.ordered@, keep, dropped.host, dropped.queue);
        let added = Self::mount_all(rest, rest.len(), kept.host, kept.queue);
        let known = Self::diff_named(
            names,
            named,
            new_names,
            g.named@,
            named.len(),
            added.host,
            added.queue,
        );
        let fresh = Self::mount_missing(
            names,
            named.len(),
            new_names,
            g.named@,
            g.named@.len(),
            known.host,
            known.queue,
        );
        Self::lemma_unmount_all_owes(extra, extra.len(), host, queue);
        Self::lemma_diff_all_owes(common, g.ordered@, keep, dropped.host, dropped.queue);
        Self::lemma_mount_all_owes(rest, rest.len(), kept.host, kept.queue);
        Self::lemma_diff_named_owes(
            names,
            named,
            new_names,
            g.named@,
            named.len(),
            added.host,
            added.queue,
        );
        Self::lemma_mount_missing_owes(
            names,
            named.len(),
            new_names,
            g.named@,
            g.named@.len(),
            known.host,
            known.queue,
        );
        lemma_quiet_add(dropped.log, kept.log);
        lemma_quiet_add(dropped.log + kept.log, added.log);
        lemma_quiet_add(dropped.log + kept.log + added.log, known.log);
        lemma_quiet_add(dropped.log + kept.log + added.log + known.log, fresh.log);
        assert(ordered =~= common + extra);
        Self::lemma_held_add(common, extra);
        Self::lemma_held_add(kept.trees, added.trees);
        Self::lemma_held_add(known.trees, fresh.trees);
    }

    /// Comparing by position neither runs nor forgets a cleanup action.
    pub proof fn lemma_diff_all_owes(
        trees: Seq<Tree<B>>,
        nodes: Seq<WidgetNode<B>>,
        n: nat,
        host: B::RunCtx,
        queue: Seq<Deferred<B>>,
    )
        requires
            WidgetNode::<B>::well_founded(),
            n <= trees.len(),
            n <= nodes.len(),
        ensures
            ({
                let step = Self::diff_all(trees, nodes, n, host, queue);
                &&& step.trees.len() == n
                &&& Self::held_all(step.trees, n) + queued(step.queue, step.queue.len())
                    == Self::held_all(trees, n) + queued(queue, queue.len())
                &&& quiet(step.log)
            }),
        decreases WidgetNode::<B>::rank_all(nodes, nodes.len()), 1nat, nodes, n,
    {
        if n > 0 {
            let before = Self::diff_all(trees, nodes, (n - 1) as nat, host, queue);
            Self::lemma_diff_all_owes(trees, nodes, (n - 1) as nat, host, queue);
            WidgetNode::<B>::lemma_rank_all(nodes, nodes.len(), n - 1);
            let last = trees[n - 1].diff(nodes[n - 1], before.host, before.queue);
            trees[n - 1].law_diff_owes(nodes[n - 1], before.host, before.queue);
            lemma_runs_add(before.log, last.log);
            Self::lemma_held_push(before.trees, last.tree);
        } else {
            assert(Self::diff_all(trees, nodes, n, host, queue).log =~= Seq::<Event>::empty());
        }
    }

    /// Comparing by name neither runs nor forgets a cleanup action.
    pub proof fn lemma_diff_named_owes(
        names: Seq<Seq<char>>,
        named: Seq<Tree<B>>,
        new_names: Seq<Seq<char>>,
        nodes: Seq<WidgetNode<B>>,
        n: nat,
        host: B::RunCtx,
        queue: Seq<Deferred<B>>,
    )
        requires
            WidgetNode::<B>::well_founded(),
            n <= named.len(),
        ensures
            ({
                let step = Self::diff_named(names, named, new_names, nodes, n, host, queue);
                &&& Self::held_all(step.trees, step.trees.len()) + queued(
                    step.queue,
                    step.queue.len(),
                ) == Self::held_all(named, n) + queued(queue, queue.len())
                &&& quiet(step.log)
            }),
        decreases WidgetNode::<B>::rank_all(nodes, nodes.len()), 1nat, nodes, n,
    {
        if n > 0 {
            let before = Self::diff_named(
                names,
                named,
                new_names,
                nodes,
                (n - 1) as nat,
                host,
                queue,
            );
            Self::lemma_diff_named_owes(names, named, new_names, nodes, (n - 1) as nat, host, queue);
            match counterpart(names, new_names, nodes.len(), n - 1) {
                Some(k) => {
                    new_names.index_of_first_ensures(names[n - 1]);
                    WidgetNode::<B>::lemma_rank_all(nodes, nodes.len(), k);
                    let last = named[n - 1].diff(nodes[k], before.host, before.queue);
                    named[n - 1].law_diff_owes(nodes[k], before.host, before.queue);
                    lemma_runs_add(before.log, last.log);
                    Self::lemma_held_push(before.trees, last.tree);
                },
                None => {
                    let gone = named[n - 1].unmount(before.host, before.queue);
                    named[n - 1].lemma_unmount_owes(before.host, before.queue);
                    lemma_runs_add(before.log, gone.log);
                },
            }
        } else {
            assert(Self::diff_named(names, named, new_names, nodes, n, host, queue).log
                =~= Seq::<Event>::empty());
        }
    }

    /// The children that are mounted afresh hold no cleanup action, and
    /// mounting them defers none.
    pub proof fn lemma_mount_missing_owes(
        names: Seq<Seq<char>>,
        count: nat,
        new_names: Seq<Seq<char>>,
        nodes: Seq<WidgetNode<B>>,
        n: nat,
        host: B::RunCtx,
        queue: Seq<Deferred<B>>,
    )
        requires
            WidgetNode::<B>::well_founded(),
            n <= nodes.len(),
        ensures
            ({
                let step = Self::mount_missing(names, count, new_names, nodes, n, host, queue);
                &&& Self::held_all(step.trees, step.trees.len()) == 0
                &&& queued(step.queue, step.queue.len()) == queued(queue, queue.len())
                &&& quiet(step.log)
            }),
        decreases n,
    {
        if n > 0 {
            let before = Self::mount_missing(
                names,
                count,
                new_names,
                nodes,
                (n - 1) as nat,
                host,
                queue,
            );
            Self::lemma_mount_missing_owes(
                names,
                count,
                new_names,
                nodes,
                (n - 1) as nat,
                host,
                queue,
            );
            if is_missing(names, count, new_names, n - 1) {
                let last = Self::mount(nodes[n - 1], before.host, before.queue);
                Self::lemma_mount_owes(nodes[n - 1], before.host, before.queue);
                lemma_runs_add(before.log, last.log);
                Self::lemma_held_push(before.trees, last.tree);
            }
        } else {
            assert(Self::mount_missing(names, count, new_names, nodes, n, host, queue).log
                =~= Seq::<Event>::empty());
        }
    }

    /// The traversal neither runs nor forgets a cleanup action.
    pub proof fn law_process_owes(self, host: B::RunCtx, queue: Seq<Deferred<B>>)
        requires
            WidgetNode::<B>::well_founded(),
        ensures
            ({
                let step = self.process(host, queue);
                &&& step.tree.owed(step.queue) == self.owed(queue)
                &&& quiet(step.log)
            }),
        decreases self, 0nat,
    {
        let step = self.process(host, queue);
        match self {
            Tree::Empty => {
                assert(step.log =~= Seq::<Event>::empty());
            },
            Tree::Component { template, result, state, deps } => {
                if Self::stale(template, state, deps, host) {
                    Self::lemma_recompute_owes(template, *result, state, host, queue);
                } else {
                    result.law_process_owes(host, queue);
                }
            },
            Tree::Effect { template, state, cleanup, pending } => {
                assert(step.log =~= Seq::<Event>::empty());
                lemma_queued_push(queue, Deferred::Run);
            },
            Tree::Unit { unit, children } => {
                children.law_process_owes(host, queue);
            },
            Tree::Group { render_order, ordered, names, named } => {
                let first = Self::process_all(named, named.len(), host, queue);
                let second = Self::process_all(ordered, ordered.len(), first.host, first.queue);
                Self::lemma_process_all_owes(named, named.len(), host, queue);
                Self::lemma_process_all_owes(ordered, ordered.len(), first.host, first.queue);
                lemma_runs_add(first.log, second.log);
            },
        }
    }

    /// The traversal of a sequence neither runs nor forgets a cleanup
    /// action.
    pub proof fn lemma_process_all_owes(
        trees: Seq<Tree<B>>,
        n: nat,
        host: B::RunCtx,
        queue: Seq<Deferred<B>>,
    )
        requires
            WidgetNode::<B>::well_founded(),
            n <= trees.len(),
        ensures
            ({
                let step = Self::process_all(trees, n, host, queue);
                &&& step.trees.len() == n
                &&& Self::held_all(step.trees, n) + queued(step.queue, step.queue.len())
                    == Self::held_all(trees, n) + queued(queue, queue.len())
                &&& quiet(step.log)
            }),
        decreases trees, n,
    {
        if n > 0 {
            let before = Self::process_all(trees, (n - 1) as nat, host, queue);
            Self::lemma_process_all_owes(trees, (n - 1) as nat, host, queue);
            let last = trees[n - 1].process(before.host, before.queue);
            trees[n - 1].law_process_owes(before.host, before.queue);
            lemma_runs_add(before.log, last.log);
            Self::lemma_held_push(before.trees, last.tree);
        } else {
            assert(Self::process_all(trees, n, host, queue).log =~= Seq::<Event>::empty());
        }
    }

    /// The run of an effect runs the cleanup action it held, if it held
    /// one, and holds the one that the run hands back.
    pub proof fn lemma_run_due_owes(self, ticket: nat, host: B::RunCtx)
        ensures
            ({
                let step = self.run_due(ticket, host);
                step.tree.held() + cleanups(step.log) == self.held() + runs(step.log)
            }),
        decreases self, 0nat,
    {
        let step = self.run_due(ticket, host);
        match self {
            Tree::Empty => {
                assert(step.log =~= Seq::<Event>::empty());
            },
            Tree::Component { template, result, state, deps } => {
                result.lemma_run_due_owes(ticket, host);
            },
            Tree::Effect { template, state, cleanup, pending } => {
                let run = Event::EffectRun(template.func.identity());
                lemma_runs_push(Seq::<Event>::empty(), Event::Cleanup);
                lemma_runs_push(Seq::<Event>::empty().push(Event::Cleanup), run);
                lemma_runs_push(Seq::<Event>::empty(), run);
                if pending == Some(ticket) {
                    if cleanup is Some {
                        assert(step.log =~= Seq::<Event>::empty().push(Event::Cleanup).push(run));
                    } else {
                        assert(step.log =~= Seq::<Event>::empty().push(run));
                    }
                } else {
                    assert(step.log =~= Seq::<Event>::empty());
                }
            },
            Tree::Unit { unit, children } => {
                children.lemma_run_due_owes(ticket, host);
            },
            Tree::Group { render_order, ordered, names, named } => {
                let first = Self::run_due_all(named, named.len(), ticket, host);
                let second = Self::run_due_all(ordered, ordered.len(), ticket, first.host);
                Self::lemma_run_due_all_owes(named, named.len(), ticket, host);
                Self::lemma_run_due_all_owes(ordered, ordered.len(), ticket, first.host);
                lemma_runs_add(first.log, second.log);
            },
        }
    }

    /// The runs of the effects of a sequence run the cleanup actions they
    /// held and hold the ones that the runs hand back.
    pub proof fn lemma_run_due_all_owes(trees: Seq<Tree<B>>, n: nat, ticket: nat, host: B::RunCtx)
        requires
            n <= trees.len(),
        ensures
            ({
                let step = Self::run_due_all(trees, n, ticket, host);
                &&& step.trees.len() == n
                &&& Self::held_all(step.trees, n) + cleanups(step.log) == Self::held_all(trees, n)
                    + runs(step.log)
            }),
        decreases trees, n,
    {
        if n > 0 {
            let before = Self::run_due_all(trees, (n - 1) as nat, ticket, host);
            Self::lemma_run_due_all_owes(trees, (n - 1) as nat, ticket, host);
            let last = trees[n - 1].run_due(ticket, before.host);
            trees[n - 1].lemma_run_due_owes(ticket, before.host);
            lemma_runs_add(before.log, last.log);
            Self::lemma_held_push(before.trees, last.tree);
        } else {
            assert(Self::run_due_all(trees, n, ticket, host).log =~= Seq::<Event>::empty());
        }
    }

    /// The deferred work runs every cleanup action that waits in it, and
    /// for every run of an effect the cleanup action that the effect held.
    pub proof fn lemma_flush_owes(self, host: B::RunCtx, queue: Seq<Deferred<B>>, n: nat)
        requires
            n <= queue.len(),
        ensures
            ({
                let step = self.flush_upto(host, queue, n);
                step.tree.held() + cleanups(step.log) == self.held() + queued(queue, n) + runs(
                    step.log,
                )
            }),
        decreases n,
    {
        if n > 0 {
            let before = self.flush_upto(host, queue, (n - 1) as nat);
            self.lemma_flush_owes(host, queue, (n - 1) as nat);
            match queue[n - 1] {
                Deferred::Cleanup(action) => {
                    lemma_runs_push(before.log, Event::Cleanup);
                },
                Deferred::Run => {
                    let ran = before.tree.run_due((n - 1) as nat, before.host);
                    before.tree.lemma_run_due_owes((n - 1) as nat, before.host);
                    lemma_runs_add(before.log, ran.log);
                },
            }
        } else {
            assert(self.flush_upto(host, queue, n).log =~= Seq::<Event>::empty());
        }
    }

    /// Where nothing is mounted, the deferred work mounts nothing.
    pub proof fn lemma_flush_empty(host: B::RunCtx, queue: Seq<Deferred<B>>, n: nat)
        ensures
            Tree::<B>::Empty.flush_upto(host, queue, n).tree == Tree::<B>::Empty,
        decreases n,
    {
        if !(n == 0 || n > queue.len()) {
            Self::lemma_flush_empty(host, queue, (n - 1) as nat);
        }
    }

    /// Over a pass, what effects hand back and what is run keep step: the
    /// cleanup actions held before, with the runs of effects, are those held
    /// after, with the cleanup actions that ran.
    pub proof fn law_pass_owes(self, host: B::RunCtx)
        requires
            WidgetNode::<B>::well_founded(),
        ensures
            self.pass(host).tree.held() + cleanups(self.pass(host).log) == self.held() + runs(
                self.pass(host).log,
            ),
    {
        let walked = self.process(host, seq![]);
        let told = B::mark_update_spec(walked.host);
        let done = walked.tree.flush(told, walked.queue);
        self.law_process_owes(host, seq![]);
        walked.tree.lemma_flush_owes(told, walked.queue, walked.queue.len());
        lemma_runs_push(walked.log, Event::MarkUpdate);
        lemma_runs_add(walked.log.push(Event::MarkUpdate), done.log);
    }

    /// Over an update, however many passes it takes, what effects hand back
    /// and what is run keep step.
    pub proof fn law_update_owes(self, host: B::RunCtx, limit: nat)
        requires
            WidgetNode::<B>::well_founded(),
        ensures
            self.settle(host, limit).tree.held() + cleanups(self.settle(host, limit).log)
                == self.held() + runs(self.settle(host, limit).log),
        decreases limit,
    {
        if limit == 0 {
            assert(self.settle(host, limit).log =~= Seq::<Event>::empty());
        } else {
            let once = self.pass(host);
            self.law_pass_owes(host);
            if self.unsettled(host) {
                let rest = once.tree.settle(once.host, (limit - 1) as nat);
                once.tree.law_update_owes(once.host, (limit - 1) as nat);
                lemma_runs_add(once.log, rest.log);
            }
        }
    }

    /// From the start of an application on, every cleanup action that a run
    /// handed back has been run once or is held by its effect.
    pub proof fn law_start_owes(node: WidgetNode<B>, host: B::RunCtx, limit: nat)
        requires
            WidgetNode::<B>::well_founded(),
        ensures
            Self::start(node, host, limit).tree.held() + cleanups(
                Self::start(node, host, limit).log,
            ) == runs(Self::start(node, host, limit).log),
    {
        let mounted = Self::mount(node, host, seq![]);
        let first = mounted.tree.flush(mounted.host, mounted.queue);
        let told = B::mark_update_spec(first.host);
        let rest = first.tree.settle(told, limit);
        Self::lemma_mount_owes(node, host, seq![]);
        mounted.tree.lemma_flush_owes(mounted.host, mounted.queue, mounted.queue.len());
        first.tree.law_update_owes(told, limit);
        lemma_runs_push(first.log, Event::MarkUpdate);
        lemma_runs_add(mounted.log, first.log.push(Event::MarkUpdate));
        lemma_runs_add(mounted.log + first.log.push(Event::MarkUpdate), rest.log);
    }

    /// Exactly once: when the tree is torn down and the deferred work done,
    /// every cleanup action that a run ever handed back has been run once.
    /// `log` is the record of everything that happened up to the state
    /// `self`, in which nothing is deferred.
    pub proof fn law_every_cleanup_runs_once(self, log: Seq<Event>, host: B::RunCtx)
        requires
            self.held() + cleanups(log) == runs(log),
        ensures
            ({
                let gone = self.unmount(host, seq![]);
                let done = gone.tree.flush(gone.host, gone.queue);
                cleanups(log + gone.log + done.log) == runs(log + gone.log + done.log)
            }),
    {
        let gone = self.unmount(host, seq![]);
        let done = gone.tree.flush(gone.host, gone.queue);
        self.lemma_unmount_owes(host, seq![]);
        gone.tree.lemma_flush_owes(gone.host, gone.queue, gone.queue.len());
        self.law_unmount_releases(host, seq![]);
        Self::lemma_flush_empty(gone.host, gone.queue, gone.queue.len());
        lemma_runs_add(log, gone.log);
        lemma_runs_add(log + gone.log, done.log);
    }
}

} // verus!
