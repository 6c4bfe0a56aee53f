//! Law: a copy of a descriptor does what the descriptor does.
use crate::backend::UiBackend;
use crate::dispatch::DynEffectFunc;
use crate::dispatch::DynWidgetFunc;
use crate::model::Deferred;
use crate::model::counterpart;
use crate::model::is_missing;
use crate::model::Tree;
use crate::node::name_views;
use crate::node::WidgetNode;
use crate::node::WidgetNodeGroup;
use vstd::prelude::*;

verus! {

impl<B: UiBackend> Tree<B> where B::WidgetFn: DynWidgetFunc<B>, B::EffectFn: DynEffectFunc<B> {
    /// Two descriptors of the same tree mount to the same.
    pub proof fn law_same_mounts(
        one: WidgetNode<B>,
        other: WidgetNode<B>,
        host: B::RunCtx,
        queue: Seq<Deferred<B>>,
    )
        requires
            WidgetNode::<B>::well_founded(),
            one.same(other),
        ensures
            Self::mount(one, host, queue) == Self::mount(other, host, queue),
        decreases one.rank(), one, 0nat,
    {
        match one {
            WidgetNode::Group(g) => {
                let h = other->Group_0;
                Self::lemma_same_mount_all(g.named@, h.named@, g.named@.len(), host, queue);
                let named = Self::mount_all(g.named@, g.named@.len(), host, queue);
                Self::lemma_same_mount_all(
                    g.ordered@,
                    h.ordered@,
                    g.ordered@.len(),
                    named.host,
                    named.queue,
                );
            },
            _ => {},
        }
    }

    /// Descriptors of the same trees, one by one, mount to the same.
    pub proof fn lemma_same_mount_all(
        one: Seq<WidgetNode<B>>,
        other: Seq<WidgetNode<B>>,
        n: nat,
        host: B::RunCtx,
        queue: Seq<Deferred<B>>,
    )
        requires
            WidgetNode::<B>::well_founded(),
            one.len() == other.len(),
            n <= one.len(),
            forall|i: int| 0 <= i < one.len() ==> (#[trigger] one[i]).same(other[i]),
        ensures
            Self::mount_all(one, n, host, queue) == Self::mount_all(other, n, host, queue),
        decreases WidgetNode::<B>::rank_all(one, one.len()), one, n,
    {
        if n > 0 {
            Self::lemma_same_mount_all(one, other, (n - 1) as nat, host, queue);
            let before = Self::mount_all(one, (n - 1) as nat, host, queue);
            WidgetNode::<B>::lemma_rank_all(one, one.len(), n - 1);
            Self::law_same_mounts(one[n - 1], other[n - 1], before.host, before.queue);
        }
    }

    /// A tree is brought in line with two descriptors of the same tree in
    /// the same way.
    pub proof fn law_same_diffs(
        self,
        one: WidgetNode<B>,
        other: WidgetNode<B>,
        host: B::RunCtx,
        queue: Seq<Deferred<B>>,
    )
        requires
            WidgetNode::<B>::well_founded(),
            one.same(other),
        ensures
            self.diff(one, host, queue) == self.diff(other, host, queue),
        decreases one.rank(), 1nat, one, 0nat,
    {
        let gone = self.unmount(host, queue);
        Self::law_same_mounts(one, other, gone.host, gone.queue);
        match one {
            WidgetNode::Group(g) => match self {
                Tree::Group { render_order, ordered, names, named } => {
                    Self::lemma_same_diff_group(ordered, names, named, g, other->Group_0, host, queue);
                },
                _ => {},
            },
            _ => {},
        }
    }

    /// A mounted group is brought in line with two descriptors of the same
    /// group in the same way.
    pub proof fn lemma_same_diff_group(
        ordered: Seq<Tree<B>>,
        names: Seq<Seq<char>>,
        named: Seq<Tree<B>>,
        g: WidgetNodeGroup<B>,
        h: WidgetNodeGroup<B>,
        host: B::RunCtx,
        queue: Seq<Deferred<B>>,
    )
        requires
            WidgetNode::<B>::well_founded(),
            WidgetNode::Group(g).same(WidgetNode::Group(h)),
        ensures
            Self::diff_group(ordered, names, named, g, host, queue) == Self::diff_group(
                ordered,
                names,
                named,
                h,
                host,
                queue,
            ),
        decreases WidgetNode::Group(g).rank(), 1nat, g, 0nat,
    {
        let keep = if ordered.len() <= g.ordered@.len() {
            ordered.len()
        } else {
            g.ordered@.len()
        };
        let common = ordered.subrange(0, keep as int);
        let extra = ordered.subrange(keep as int, ordered.len() as int);
        let rest_g = g.ordered@.subrange(keep as int, g.ordered@.len() as int);
        let rest_h = h.ordered@.subrange(keep as int, h.ordered@.len() as int);
        let new_names = name_views(g.names@);
        let dropped = Self::unmount_all(extra, extra.len(), host, queue);
        Self::lemma_same_diff_all(common, g.ordered@, h.ordered@, keep, dropped.host, dropped.queue);
        let kept = Self::diff_all(common, g.ordered@, keep, dropped.host, dropped.queue);
        assert forall|i: int| 0 <= i < rest_g.len() implies (#[trigger] rest_g[i]).same(
            rest_h[i],
        ) by {
            assert(g.ordered@[keep + i].same(h.ordered@[keep + i]));
        }
        Self::lemma_same_mount_all(rest_g, rest_h, rest_g.len(), kept.host, kept.queue);
        let added = Self::mount_all(rest_g, rest_g.len(), kept.host, kept.queue);
        Self::lemma_same_diff_named(
            names,
            named,
            new_names,
            g.named@,
            h.named@,
            named.len(),
            added.host,
            added.queue,
        );
        let known = Self::diff_named(
            names,
            named,
            new_names,
            g.named@,
            named.len(),
            added.host,
            added.queue,
        );
        Self::lemma_same_mount_missing(
            names,
            named.len(),
            new_names,
            g.named@,
            h.named@,
            g.named@.len(),
            known.host,
            known.queue,
        );
    }

    /// Trees are compared by position with descriptors of the same trees in
    /// the same way.
    pub proof fn lemma_same_diff_all(
        trees: Seq<Tree<B>>,
        one: Seq<WidgetNode<B>>,
        other: Seq<WidgetNode<B>>,
        n: nat,
        host: B::RunCtx,
        queue: Seq<Deferred<B>>,
    )
        requires
            WidgetNode::<B>::well_founded(),
            one.len() == other.len(),
            forall|i: int| 0 <= i < one.len() ==> (#[trigger] one[i]).same(other[i]),
        ensures
            Self::diff_all(trees, one, n, host, queue) == Self::diff_all(
                trees,
                other,
                n,
                host,
                queue,
            ),
        decreases WidgetNode::<B>::rank_all(one, one.len()), 1nat, one, n,
    {
        if !(n == 0 || n > one.len() || n > trees.len()) {
            Self::lemma_same_diff_all(trees, one, other, (n - 1) as nat, host, queue);
            let before = Self::diff_all(trees, one, (n - 1) as nat, host, queue);
            WidgetNode::<B>::lemma_rank_all(one, one.len(), n - 1);
            trees[n - 1].law_same_diffs(one[n - 1], other[n - 1], before.host, before.queue);
        }
    }

    /// Trees are compared by name with descriptors of the same trees in the
    /// same way.
    pub proof fn lemma_same_diff_named(
        names: Seq<Seq<char>>,
        named: Seq<Tree<B>>,
        new_names: Seq<Seq<char>>,
        one: Seq<WidgetNode<B>>,
        other: Seq<WidgetNode<B>>,
        n: nat,
        host: B::RunCtx,
        queue: Seq<Deferred<B>>,
    )
        requires
            WidgetNode::<B>::well_founded(),
            one.len() == other.len(),
            forall|i: int| 0 <= i < one.len() ==> (#[trigger] one[i]).same(other[i]),
        ensures
            Self::diff_named(names, named, new_names, one, n, host, queue) == Self::diff_named(
                names,
                named,
                new_names,
                other,
                n,
                host,
                queue,
            ),
        decreases WidgetNode::<B>::rank_all(one, one.len()), 1nat, one, n,
    {
        if !(n == 0 || n > named.len()) {
            Self::lemma_same_diff_named(
                names,
                named,
                new_names,
                one,
                other,
                (n - 1) as nat,
                host,
                queue,
            );
            let before = Self::diff_named(
                names,
                named,
                new_names,
                one,
                (n - 1) as nat,
                host,
                queue,
            );
            match counterpart(names, new_names, one.len(), n - 1) {
                Some(k) => {
                    new_names.index_of_first_ensures(names[n - 1]);
                    WidgetNode::<B>::lemma_rank_all(one, one.len(), k);
                    named[n - 1].law_same_diffs(one[k], other[k], before.host, before.queue);
                },
                None => {},
            }
        }
    }

    /// The children whose names are new are mounted from descriptors of the
    /// same trees in the same way.
    pub proof fn lemma_same_mount_missing(
        names: Seq<Seq<char>>,
        count: nat,
        new_names: Seq<Seq<char>>,
        one: Seq<WidgetNode<B>>,
        other: Seq<WidgetNode<B>>,
        n: nat,
        host: B::RunCtx,
        queue: Seq<Deferred<B>>,
    )
        requires
            WidgetNode::<B>::well_founded(),
            one.len() == other.len(),
            forall|i: int| 0 <= i < one.len() ==> (#[trigger] one[i]).same(other[i]),
        ensures
            Self::mount_missing(names, count, new_names, one, n, host, queue)
                == Self::mount_missing(names, count, new_names, other, n, host, queue),
        decreases n,
    {
        if !(n == 0 || n > one.len()) {
            Self::lemma_same_mount_missing(
                names,
                count,
                new_names,
                one,
                other,
                (n - 1) as nat,
                host,
                queue,
            );
            let before = Self::mount_missing(
                names,
                count,
                new_names,
                one,
                (n - 1) as nat,
                host,
                queue,
            );
            if is_missing(names, count, new_names, n - 1) {
                Self::law_same_mounts(one[n - 1], other[n - 1], before.host, before.queue);
            }
        }
    }
}

} // verus!
