//! Law: a component is patched or replaced by its function identity alone.
use crate::backend::UiBackend;
use crate::dispatch::DynEffectFunc;
use crate::dispatch::DynWidgetFunc;
use crate::model::Deferred;
use crate::model::Event;
use crate::model::Tree;
use crate::node::WidgetComponent;
use crate::node::WidgetNode;
use crate::pairing::deinits;
use crate::pairing::inits;
use crate::pairing::lemma_counts_add;
use crate::pairing::lemma_counts_push;
use vstd::prelude::*;

verus! {

impl<B: UiBackend> Tree<B> where B::WidgetFn: DynWidgetFunc<B>, B::EffectFn: DynEffectFunc<B> {
    /// A component descriptor of the same function identity patches the
    /// mounted instance: the instance stays with its function and takes the
    /// new properties, its hook state is the one it had, handed through one
    /// more call, and what is mounted below it is reconciled in place. Its
    /// own state is neither allocated anew nor released.
    pub proof fn law_same_identity_patches(
        template: WidgetComponent<B>,
        result: Tree<B>,
        state: B::State,
        deps: Seq<B::Dep>,
        new: WidgetComponent<B>,
        host: B::RunCtx,
        queue: Seq<Deferred<B>>,
    )
        requires
            WidgetNode::<B>::well_founded(),
            template.func.identity() == new.func.identity(),
        ensures
            ({
                let mounted = Tree::Component { template, result: Box::new(result), state, deps };
                let step = mounted.diff(WidgetNode::Component(new), host, queue);
                let called = template.func.call_spec(host, new.spec_props(), state);
                let below = result.diff(called.0, host, queue);
                &&& step.tree == Tree::Component {
                    template: WidgetComponent { func: template.func, props: new.props },
                    result: Box::new(below.tree),
                    state: called.1,
                    deps: called.2,
                }
                &&& step.host == below.host
                &&& step.queue == below.queue
                &&& step.log == seq![Event::Call(template.func.identity())] + below.log
                &&& inits(step.log) == inits(below.log)
                &&& deinits(step.log) == deinits(below.log)
            }),
    {
        let mounted = Tree::Component { template, result: Box::new(result), state, deps };
        let step = mounted.diff(WidgetNode::Component(new), host, queue);
        let kept = WidgetComponent { func: template.func, props: new.props };
        let called = template.func.call_spec(host, new.spec_props(), state);
        let below = result.diff(called.0, host, queue);
        let call = Event::Call(template.func.identity());
        assert(step == Self::recompute(kept, result, state, host, queue));
        lemma_counts_push(Seq::<Event>::empty(), call);
        assert(seq![call] =~= Seq::<Event>::empty().push(call));
        lemma_counts_add(seq![call], below.log);
        assert(step.log =~= seq![call] + below.log);
    }

    /// A component descriptor of another function identity, or one that
    /// meets anything but a component, replaces what is mounted: the old
    /// tree is unmounted whole, and then the new instance starts from freshly
    /// allocated hook state.
    pub proof fn law_other_identity_replaces(
        self,
        new: WidgetComponent<B>,
        host: B::RunCtx,
        queue: Seq<Deferred<B>>,
    )
        requires
            WidgetNode::<B>::well_founded(),
            !(self matches Tree::Component { template, .. } && template.func.identity()
                == new.func.identity()),
        ensures
            ({
                let step = self.diff(WidgetNode::Component(new), host, queue);
                let gone = self.unmount(host, queue);
                let made = new.func.init_spec(gone.host);
                let called = new.func.call_spec(made.1, new.spec_props(), made.0);
                let below = Self::mount(called.0, made.1, gone.queue);
                &&& step.tree == Tree::Component {
                    template: new,
                    result: Box::new(below.tree),
                    state: called.1,
                    deps: called.2,
                }
                &&& step.host == below.host
                &&& step.log == gone.log + (seq![
                    Event::Init(new.func.identity()),
                    Event::Call(new.func.identity()),
                ] + below.log)
                &&& deinits(gone.log) == self.instances()
            }),
    {
        self.law_unmount_releases(host, queue);
    }
}

} // verus!
