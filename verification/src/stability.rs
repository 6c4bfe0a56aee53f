//! Law: the order in which a group lists its children decides where they are
//! rendered, and nothing else.
use crate::backend::UiBackend;
use crate::dispatch::DynEffectFunc;
use crate::dispatch::DynWidgetFunc;
use crate::model::Deferred;
use crate::model::counterpart;
use crate::model::is_missing;
use crate::model::kept_names;
use crate::model::missing_names_upto;
use crate::model::named_child;
use crate::model::Steps;
use crate::model::Tree;
use crate::node::name_views;
use crate::node::slot_views;
use crate::node::WidgetNode;
use crate::node::WidgetNodeGroup;
use vstd::prelude::*;

verus! {

impl<B: UiBackend> WidgetNodeGroup<B> {
    /// The descriptor registered under `key`, if any.
    pub open spec fn spec_named(self, key: Seq<char>) -> Option<WidgetNode<B>> {
        match named_child(name_views(self.names@), self.named@.len(), key) {
            Some(k) => Some(self.named@[k]),
            None => None,
        }
    }

    /// The two groups have the same positional children and the same child
    /// under every name, in whatever order they list them.
    pub open spec fn same_children(self, other: Self) -> bool {
        &&& self.ordered@ == other.ordered@
        &&& forall|key: Seq<char>| #[trigger] self.spec_named(key) == other.spec_named(key)
    }

    /// Every name of the group is the name of one of `count` mounted
    /// children.
    pub open spec fn all_among(self, names: Seq<Seq<char>>, count: nat) -> bool {
        forall|i: int|
            0 <= i < self.names@.len() ==> named_child(
                names,
                count,
                #[trigger] name_views(self.names@)[i],
            ).is_some()
    }
}

impl<B: UiBackend> Tree<B> where B::WidgetFn: DynWidgetFunc<B>, B::EffectFn: DynEffectFunc<B> {
    /// Comparing the named children with two groups that have the same child
    /// under every name comes to the same.
    pub proof fn lemma_diff_named_by_name(
        names: Seq<Seq<char>>,
        named: Seq<Tree<B>>,
        one: WidgetNodeGroup<B>,
        other: WidgetNodeGroup<B>,
        n: nat,
        host: B::RunCtx,
        queue: Seq<Deferred<B>>,
    )
        requires
            WidgetNode::<B>::well_founded(),
            one.same_children(other),
            n <= named.len(),
        ensures
            Self::diff_named(names, named, name_views(one.names@), one.named@, n, host, queue)
                == Self::diff_named(
                names,
                named,
                name_views(other.names@),
                other.named@,
                n,
                host,
                queue,
            ),
            kept_names(names, named.len(), name_views(one.names@), one.named@.len(), n)
                == kept_names(names, named.len(), name_views(other.names@), other.named@.len(), n),
        decreases n,
    {
        if n > 0 {
            Self::lemma_diff_named_by_name(names, named, one, other, (n - 1) as nat, host, queue);
            if n - 1 < names.len() {
                let key = names[n - 1];
                assert(one.spec_named(key) == other.spec_named(key));
            }
        }
    }

    /// Where every name of the new group is mounted already, no named child
    /// is mounted afresh.
    pub proof fn lemma_nothing_missing(
        names: Seq<Seq<char>>,
        count: nat,
        g: WidgetNodeGroup<B>,
        n: nat,
        host: B::RunCtx,
        queue: Seq<Deferred<B>>,
    )
        requires
            WidgetNode::<B>::well_founded(),
            g.all_among(names, count),
        ensures
            Self::mount_missing(names, count, name_views(g.names@), g.named@, n, host, queue) == (
            Steps::<B> { trees: seq![], host, queue, log: seq![] }),
            missing_names_upto(names, count, name_views(g.names@), n) == Seq::<
                Seq<char>,
            >::empty(),
        decreases n,
    {
        if n > 0 {
            Self::lemma_nothing_missing(names, count, g, (n - 1) as nat, host, queue);
            assert(!is_missing(names, count, name_views(g.names@), n - 1));
        }
    }

    /// Group reordering stability: two descriptors of a group that differ
    /// only in the order in which they list their children, and that name no
    /// child that is not mounted, do the same to the mounted group. The same
    /// instances stay, with the same state, the same calls are made in the
    /// same order; only the render order that the group adopts is that of
    /// the descriptor.
    pub proof fn law_reordering_is_stable(
        ordered: Seq<Tree<B>>,
        names: Seq<Seq<char>>,
        named: Seq<Tree<B>>,
        one: WidgetNodeGroup<B>,
        other: WidgetNodeGroup<B>,
        host: B::RunCtx,
        queue: Seq<Deferred<B>>,
    )
        requires
            WidgetNode::<B>::well_founded(),
            one.same_children(other),
            one.all_among(names, named.len()),
            other.all_among(names, named.len()),
        ensures
            ({
                let a = Self::diff_group(ordered, names, named, one, host, queue);
                let b = Self::diff_group(ordered, names, named, other, host, queue);
                &&& a.host == b.host
                &&& a.queue == b.queue
                &&& a.log == b.log
                &&& a.tree is Group
                &&& b.tree is Group
                &&& a.tree->ordered == b.tree->ordered
                &&& a.tree->names == b.tree->names
                &&& a.tree->named == b.tree->named
                &&& a.tree->render_order == slot_views(one.render_order@)
                &&& b.tree->render_order == slot_views(other.render_order@)
            }),
    {
        let keep = if ordered.len() <= one.ordered@.len() {
            ordered.len()
        } else {
            one.ordered@.len()
        };
        let extra = ordered.subrange(keep as int, ordered.len() as int);
        let dropped = Self::unmount_all(extra, extra.len(), host, queue);
        let kept = Self::diff_all(
            ordered.subrange(0, keep as int),
            one.ordered@,
            keep,
            dropped.host,
            dropped.queue,
        );
        let added = Self::mount_all(
            one.ordered@.subrange(keep as int, one.ordered@.len() as int),
            (one.ordered@.len() - keep) as nat,
            kept.host,
            kept.queue,
        );
        Self::lemma_diff_named_by_name(
            names,
            named,
            one,
            other,
            named.len(),
            added.host,
            added.queue,
        );
        let known = Self::diff_named(
            names,
            named,
            name_views(one.names@),
            one.named@,
            named.len(),
            added.host,
            added.queue,
        );
        Self::lemma_nothing_missing(
            names,
            named.len(),
            one,
            one.named@.len(),
            known.host,
            known.queue,
        );
        Self::lemma_nothing_missing(
            names,
            named.len(),
            other,
            other.named@.len(),
            known.host,
            known.queue,
        );
    }

    /// Where every mounted name has a descriptor in the new group, every
    /// named child stays, under its name and at its place.
    pub proof fn lemma_all_names_stay(
        names: Seq<Seq<char>>,
        named: Seq<Tree<B>>,
        new_names: Seq<Seq<char>>,
        nodes: Seq<WidgetNode<B>>,
        n: nat,
        host: B::RunCtx,
        queue: Seq<Deferred<B>>,
    )
        requires
            WidgetNode::<B>::well_founded(),
            n <= named.len(),
            names.len() == named.len(),
            forall|j: int|
                0 <= j < names.len() ==> (#[trigger] counterpart(
                    names,
                    new_names,
                    nodes.len(),
                    j,
                )).is_some(),
        ensures
            Self::diff_named(names, named, new_names, nodes, n, host, queue).trees.len() == n,
            kept_names(names, named.len(), new_names, nodes.len(), n) == names.subrange(
                0,
                n as int,
            ),
        decreases n,
    {
        if n > 0 {
            Self::lemma_all_names_stay(names, named, new_names, nodes, (n - 1) as nat, host, queue);
            assert(counterpart(names, new_names, nodes.len(), n - 1).is_some());
            assert(names.subrange(0, n - 1).push(names[n - 1]) =~= names.subrange(0, n as int));
        } else {
            assert(names.subrange(0, 0) =~= Seq::<Seq<char>>::empty());
        }
    }

    /// Group reordering stability, seen from the mounted group: a descriptor
    /// with as many positional children and the same names, in whatever
    /// order it lists them, mounts and unmounts no child of the group. Every
    /// child stays at its place and under its name and meets the descriptor
    /// of its position or its name; the group adopts the render order.
    /// Whether a child keeps its instance and state is then a matter of
    /// function identity alone.
    pub proof fn law_same_keys_patch_in_place(
        ordered: Seq<Tree<B>>,
        names: Seq<Seq<char>>,
        named: Seq<Tree<B>>,
        g: WidgetNodeGroup<B>,
        host: B::RunCtx,
        queue: Seq<Deferred<B>>,
    )
        requires
            WidgetNode::<B>::well_founded(),
            ordered.len() == g.ordered@.len(),
            names.len() == named.len(),
            g.all_among(names, named.len()),
            forall|j: int|
                0 <= j < names.len() ==> (#[trigger] counterpart(
                    names,
                    name_views(g.names@),
                    g.named@.len(),
                    j,
                )).is_some(),
        ensures
            ({
                let step = Self::diff_group(ordered, names, named, g, host, queue);
                let positional = Self::diff_all(ordered, g.ordered@, ordered.len(), host, queue);
                let by_name = Self::diff_named(
                    names,
                    named,
                    name_views(g.names@),
                    g.named@,
                    named.len(),
                    positional.host,
                    positional.queue,
                );
                &&& step.tree == Tree::Group {
                    render_order: slot_views(g.render_order@),
                    ordered: positional.trees,
                    names,
                    named: by_name.trees,
                }
                &&& positional.trees.len() == ordered.len()
                &&& by_name.trees.len() == named.len()
                &&& step.host == by_name.host
                &&& step.queue == by_name.queue
                &&& step.log == positional.log + by_name.log
            }),
    {
        let new_names = name_views(g.names@);
        let keep = ordered.len();
        let common = ordered.subrange(0, keep as int);
        let extra = ordered.subrange(keep as int, ordered.len() as int);
        let rest = g.ordered@.subrange(keep as int, g.ordered@.len() as int);
        assert(common =~= ordered);
        assert(extra.len() == 0);
        assert(rest.len() == 0);
        let dropped = Self::unmount_all(extra, extra.len(), host, queue);
        let kept = Self::diff_all(common, g.ordered@, keep, dropped.host, dropped.queue);
        let added = Self::mount_all(rest, rest.len(), kept.host, kept.queue);
        Self::lemma_diff_all(ordered, g.ordered@, keep, host, queue);
        Self::lemma_all_names_stay(
            names,
            named,
            new_names,
            g.named@,
            named.len(),
            added.host,
            added.queue,
        );
        let known = Self::diff_named(
            names,
            named,
            new_names,
            g.named@,
            named.len(),
            added.host,
            added.queue,
        );
        Self::lemma_nothing_missing(
            names,
            named.len(),
            g,
            g.named@.len(),
            known.host,
            known.queue,
        );
        assert(names.subrange(0, names.len() as int) =~= names);
        assert(kept.trees + added.trees =~= kept.trees);
        let fresh = Self::mount_missing(
            names,
            named.len(),
            new_names,
            g.named@,
            g.named@.len(),
            known.host,
            known.queue,
        );
        assert(known.trees + fresh.trees =~= known.trees);
        assert(names + Seq::<Seq<char>>::empty() =~= names);
        assert(dropped.log + kept.log + added.log + known.log + fresh.log =~= kept.log
            + known.log);
    }
}

} // verus!
