//! The uniform interface behind which widget and effect functions are stored.
//!
//! The engine never sees the concrete type of a function, of its properties
//! or of its hook state. It sees an object with the methods below, erased
//! payloads, and an identity token that tells one function from another.
use crate::backend::UiBackend;
use crate::node::WidgetComponent;
use crate::node::WidgetEffectComponent;
use crate::node::WidgetNode;
use std::rc::Rc;
use vstd::prelude::*;

verus! {

/// A widget function with its type erased.
///
/// The specification functions name what each method yields from its
/// arguments; the engine's contracts are stated over these names. An
/// implementation that reconstitutes concrete types from the erased payloads
/// fails on a mismatch rather than substituting a default.
pub trait DynWidgetFunc<B: UiBackend>: Sized {
    /// The identity token: equal for two objects of the same function.
    open spec fn identity(&self) -> u64 {
        arbitrary()
    }

    /// A bound on how deeply the function's results nest further components.
    open spec fn rank(&self, props: B::Props) -> nat {
        arbitrary()
    }

    /// The descriptor produced by a call, with the hook state after it and
    /// the dependencies that the call registered.
    open spec fn call_spec(&self, ctx: B::RunCtx, props: B::Props, state: B::State) -> (
        WidgetNode<B>,
        B::State,
        Seq<B::Dep>,
    ) {
        arbitrary()
    }

    /// The fresh hook state, with the host context after its creation.
    open spec fn init_spec(&self, ctx: B::RunCtx) -> (B::State, B::RunCtx) {
        arbitrary()
    }

    /// The host context after the hook state has been released.
    open spec fn deinit_spec(&self, ctx: B::RunCtx, state: B::State) -> B::RunCtx {
        arbitrary()
    }

    /// Whether some hook parameter has changed since the last call.
    open spec fn needs_recalc_spec(&self, ctx: B::RunCtx, state: B::State) -> bool {
        arbitrary()
    }

    /// Invokes the function. The hook state may record what it observed,
    /// and the function may register dependencies in `deps`, which is empty
    /// when the call begins.
    fn call(
        &self,
        ctx: &B::RunCtx,
        props: &B::Props,
        init_data: &mut B::State,
        deps: &mut Vec<B::Dep>,
    ) -> (r: WidgetNode<B>)
        requires
            old(deps)@.len() == 0,
        ensures
            (r, *final(init_data), final(deps)@) == self.call_spec(*ctx, *props, *old(init_data)),
    ;

    /// Reports whether the function has to be invoked again.
    fn needs_recalc(&self, ctx: &B::RunCtx, init_data: &B::State) -> (r: bool)
        ensures
            r == self.needs_recalc_spec(*ctx, *init_data),
    ;

    /// Allocates the hook state of a new instance.
    fn init(&self, ctx: &mut B::RunCtx) -> (r: B::State)
        ensures
            (r, *final(ctx)) == self.init_spec(*old(ctx)),
    ;

    /// Releases the hook state of an instance.
    fn deinit(&self, ctx: &mut B::RunCtx, init_data: B::State)
        ensures
            *final(ctx) == self.deinit_spec(*old(ctx), init_data),
    ;

    /// The identity token of the function.
    fn fn_type_id(&self) -> (r: u64)
        ensures
            r == self.identity(),
    ;
}

/// An effect function with its type erased.
pub trait DynEffectFunc<B: UiBackend>: Sized {
    /// The identity token: equal for two objects of the same function.
    open spec fn identity(&self) -> u64 {
        arbitrary()
    }

    /// The cleanup action produced by a run, with the host context and the
    /// hook state after it.
    open spec fn call_spec(&self, ctx: B::RunCtx, props: B::Props, state: B::State) -> (
        B::Cleanup,
        B::RunCtx,
        B::State,
    ) {
        arbitrary()
    }

    /// The fresh hook state, with the host context after its creation.
    open spec fn init_spec(&self, ctx: B::RunCtx) -> (B::State, B::RunCtx) {
        arbitrary()
    }

    /// Whether the effect's dependencies have changed since its last run.
    open spec fn needs_recalc_spec(&self, ctx: B::RunCtx, state: B::State) -> bool {
        arbitrary()
    }

    /// Runs the effect and hands back the action that undoes it.
    fn call(&self, ctx: &mut B::RunCtx, props: &B::Props, init_data: &mut B::State) -> (r:
        B::Cleanup)
        ensures
            (r, *final(ctx), *final(init_data)) == self.call_spec(
                *old(ctx),
                *props,
                *old(init_data),
            ),
    ;

    /// Reports whether the effect has to run again.
    fn needs_recalc(&self, ctx: &B::RunCtx, init_data: &B::State) -> (r: bool)
        ensures
            r == self.needs_recalc_spec(*ctx, *init_data),
    ;

    /// Allocates the hook state of a new registration.
    fn init(&self, ctx: &mut B::RunCtx) -> (r: B::State)
        ensures
            (r, *final(ctx)) == self.init_spec(*old(ctx)),
    ;

    /// The identity token of the function.
    fn fn_type_id(&self) -> (r: u64)
        ensures
            r == self.identity(),
    ;
}

/// A widget function as its author sees it: with typed properties `P`.
pub trait WidgetFunc<P, B: UiBackend>: Sized {
    /// The erased object that [`WidgetFunc::as_dynamic`] yields.
    open spec fn dynamic_spec(&self) -> B::WidgetFn {
        arbitrary()
    }

    /// The erased payload that [`WidgetFunc::erase`] yields.
    open spec fn erase_spec(&self, props: P) -> B::Props {
        arbitrary()
    }

    /// The function behind the uniform interface.
    fn as_dynamic(&self) -> (r: Rc<B::WidgetFn>)
        ensures
            *r == self.dynamic_spec(),
    ;

    /// The properties with their type erased.
    fn erase(&self, props: P) -> (r: B::Props)
        ensures
            r == self.erase_spec(props),
    ;

    /// The descriptor of a call of this function with `props`.
    fn w(self, props: P) -> (node: WidgetNode<B>)
        ensures
            node matches WidgetNode::Component(c) && *c.func == self.dynamic_spec() && *c.props
                == self.erase_spec(props),
    {
        let func = self.as_dynamic();
        let props = Rc::new(self.erase(props));
        WidgetNode::Component(WidgetComponent { func, props })
    }
}

/// An effect function as its author sees it: with typed properties `P`.
pub trait EffectFunc<P, B: UiBackend>: Sized {
    /// The erased object that [`EffectFunc::as_dynamic`] yields.
    open spec fn dynamic_spec(&self) -> B::EffectFn {
        arbitrary()
    }

    /// The erased payload that [`EffectFunc::erase`] yields.
    open spec fn erase_spec(&self, props: P) -> B::Props {
        arbitrary()
    }

    /// The function behind the uniform interface.
    fn as_dynamic(&self) -> (r: Rc<B::EffectFn>)
        ensures
            *r == self.dynamic_spec(),
    ;

    /// The properties with their type erased.
    fn erase(&self, props: P) -> (r: B::Props)
        ensures
            r == self.erase_spec(props),
    ;

    /// The descriptor of a registration of this effect with `props`.
    fn e(self, props: P) -> (node: WidgetNode<B>)
        ensures
            node matches WidgetNode::Effect(c) && *c.func == self.dynamic_spec() && *c.props
                == self.erase_spec(props),
    {
        let func = self.as_dynamic();
        let props = Rc::new(self.erase(props));
        WidgetNode::Effect(WidgetEffectComponent { func, props })
    }
}

impl<B: UiBackend> WidgetNode<B> where B::WidgetFn: DynWidgetFunc<B> {
    /// How deeply this descriptor nests components: one more than the
    /// largest rank of a component in it, zero without components.
    pub open spec fn rank(self) -> nat
        decreases self,
    {
        match self {
            WidgetNode::Empty => 0,
            WidgetNode::Component(c) => c.func.rank(*c.props) + 1,
            WidgetNode::Effect(_) => 0,
            WidgetNode::Unit { unit, children } => children.rank(),
            WidgetNode::Group(g) => {
                let a = Self::rank_all(g.ordered@, g.ordered@.len());
                let b = Self::rank_all(g.named@, g.named@.len());
                if a >= b {
                    a
                } else {
                    b
                }
            },
        }
    }

    /// The largest rank among the first `n` descriptors of `s`.
    pub open spec fn rank_all(s: Seq<WidgetNode<B>>, n: nat) -> nat
        decreases s, n,
    {
        if n == 0 || n > s.len() {
            0
        } else {
            let a = s[n - 1].rank();
            let b = Self::rank_all(s, (n - 1) as nat);
            if a >= b {
                a
            } else {
                b
            }
        }
    }

    /// No descriptor among the first `n` outranks their common bound.
    pub proof fn lemma_rank_all(s: Seq<WidgetNode<B>>, n: nat, i: int)
        requires
            0 <= i < n <= s.len(),
        ensures
            s[i].rank() <= Self::rank_all(s, n),
        decreases n,
    {
        if i < n - 1 {
            Self::lemma_rank_all(s, (n - 1) as nat, i);
        }
    }

    /// Every widget function yields descriptors that nest no deeper than its
    /// rank allows, and two objects of one function identity have one rank.
    /// Reconciliation terminates for such functions.
    pub open spec fn well_founded() -> bool {
        &&& forall|f: B::WidgetFn, ctx: B::RunCtx, props: B::Props, state: B::State|
            (#[trigger] f.call_spec(ctx, props, state)).0.rank() <= f.rank(props)
        &&& forall|f: B::WidgetFn, g: B::WidgetFn, props: B::Props|
            f.identity() == g.identity() ==> #[trigger] f.rank(props) == #[trigger] g.rank(props)
    }
}

} // verus!
