//! Hook parameters: typed requests, made by a widget function, for
//! backend-managed state with change detection.
use crate::backend::UiBackend;
use std::marker::PhantomData;
use vstd::prelude::*;

verus! {

/// The lifecycle of one kind of hook parameter.
///
/// `init` runs once, before the owning component's first invocation;
/// `get_item` once per invocation; `needs_recalc` before each would-be
/// invocation; `deinit` once, when the component is unmounted.
pub trait WidgetParam<B: UiBackend> {
    /// What the parameter keeps between invocations.
    type InitData;

    /// What the widget function receives for one invocation.
    type Item<'ctx, 's>;

    /// Whether allocating in `ctx` may yield `init_data` and leave the host
    /// context `after`.
    open spec fn created(ctx: B::RunCtx, init_data: Self::InitData, after: B::RunCtx) -> bool {
        arbitrary()
    }

    /// Whether the resources behind `init_data` are there to be read.
    open spec fn ready(ctx: B::RunCtx, init_data: Self::InitData) -> bool {
        arbitrary()
    }

    /// The host context after the resources behind `init_data` have been
    /// released.
    open spec fn deinit_spec(ctx: B::RunCtx, init_data: Self::InitData) -> B::RunCtx {
        arbitrary()
    }

    /// The bookkeeping after one invocation has observed the host context.
    open spec fn observed(ctx: B::RunCtx, init_data: Self::InitData) -> Self::InitData {
        arbitrary()
    }

    /// Whether what the parameter stands for has changed since it was last
    /// observed.
    open spec fn needs_recalc_spec(ctx: B::RunCtx, init_data: Self::InitData) -> bool {
        arbitrary()
    }

    /// Allocates what the parameter needs.
    fn init(ctx: &mut B::RunCtx) -> (r: Self::InitData)
        ensures
            Self::created(*old(ctx), r, *final(ctx)),
    ;

    /// Releases what the parameter allocated.
    fn deinit(ctx: &mut B::RunCtx, init_data: Self::InitData)
        ensures
            *final(ctx) == Self::deinit_spec(*old(ctx), init_data),
    ;

    /// Produces the value for one invocation and records what it observed.
    fn get_item<'ctx, 's>(ctx: &'ctx B::RunCtx, init_data: &'s mut Self::InitData) -> (r:
        Self::Item<'ctx, 's>)
        requires
            Self::ready(*ctx, *old(init_data)),
        ensures
            *final(init_data) == Self::observed(*ctx, *old(init_data)),
    ;

    /// Reports whether the owning component has to be invoked again.
    fn needs_recalc(ctx: &B::RunCtx, init_data: &Self::InitData) -> (r: bool)
        ensures
            r == Self::needs_recalc_spec(*ctx, *init_data),
    ;
}

/// The value of a store for the duration of one invocation, with the handle
/// by which the store can be written to later.
pub struct Store<'a, T, B: UiBackend> {
    val: &'a T,
    id: B::StoreId,
}

/// The handle of a store of values of type `T`.
pub struct StoreId<T, B: UiBackend> {
    pub id: B::StoreId,
    _m: PhantomData<T>,
}

impl<T, B: UiBackend> View for StoreId<T, B> {
    type V = B::StoreId;

    closed spec fn view(&self) -> B::StoreId {
        self.id
    }
}

impl<'a, T, B: UiBackend> Store<'a, T, B> {
    /// The value read.
    pub closed spec fn spec_value(&self) -> T {
        *self.val
    }

    /// The handle of the store.
    pub closed spec fn spec_id(&self) -> B::StoreId {
        self.id
    }

    /// The handle of the store, to keep beyond the invocation.
    pub fn id(&self) -> (r: StoreId<T, B>)
        ensures
            r@ == self.spec_id(),
    {
        StoreId { id: self.id, _m: PhantomData }
    }

    /// The value read.
    pub fn value(&self) -> (r: &'a T)
        ensures
            *r == self.spec_value(),
    {
        self.val
    }
}

impl<T: Send + Sync + 'static, B: UiBackend> StoreId<T, B> {
    /// Grants write access to the value of the store.
    pub fn access_mut<'a>(self, ctx: &'a mut B::RunCtx) -> (r: &'a mut T)
        requires
            B::has_store::<T>(self@, *old(ctx)),
        ensures
            *r == B::store_value::<T>(self@, *old(ctx)),
            *final(ctx) == B::store_written::<T>(self@, *old(ctx), *final(r)),
    {
        B::access_store_mut(self.id, ctx)
    }
}

impl<T: Send + Sync + 'static, B: UiBackend> StoreId<T, B> {
    /// Grants write access to the value of the store, if the store is
    /// there; leaves the host context untouched if it is not.
    pub fn try_access_mut<'a>(self, ctx: &'a mut B::RunCtx) -> (r: Option<&'a mut T>)
        ensures
            match r {
                Some(value) => {
                    &&& B::has_store::<T>(self@, *old(ctx))
                    &&& *value == B::store_value::<T>(self@, *old(ctx))
                    &&& *final(ctx) == B::store_written::<T>(self@, *old(ctx), *final(value))
                },
                None => !B::has_store::<T>(self@, *old(ctx)) && *final(ctx) == *old(ctx),
            },
    {
        if B::store_exists::<T>(self.id, ctx) {
            Some(B::access_store_mut(self.id, ctx))
        } else {
            None
        }
    }
}

impl<T, B: UiBackend> Clone for StoreId<T, B> {
    fn clone(&self) -> (r: Self)
        ensures
            r@ == self@,
    {
        StoreId { id: self.id, _m: PhantomData }
    }
}

impl<T, B: UiBackend> Copy for StoreId<T, B> {

}

impl<'a, B: UiBackend, T: Default + Send + Sync + 'static> WidgetParam<B> for Store<'a, T, B> {
    type InitData = B::StoreInitData;

    type Item<'ctx, 's> = Store<'ctx, T, B>;

    open spec fn created(ctx: B::RunCtx, init_data: B::StoreInitData, after: B::RunCtx) -> bool {
        &&& B::has_store::<T>(B::store_id_spec(init_data), after)
        &&& exists|seed: T|
            call_ensures(T::default, (), seed) && (init_data, after) == B::init_store_spec(
                ctx,
                seed,
            ) && B::store_value::<T>(B::store_id_spec(init_data), after) == seed
    }

    open spec fn ready(ctx: B::RunCtx, init_data: B::StoreInitData) -> bool {
        B::has_store::<T>(B::store_id_spec(init_data), ctx)
    }

    open spec fn deinit_spec(ctx: B::RunCtx, init_data: B::StoreInitData) -> B::RunCtx {
        B::deinit_store_spec(init_data, ctx)
    }

    open spec fn observed(ctx: B::RunCtx, init_data: B::StoreInitData) -> B::StoreInitData {
        B::store_marked::<T>(ctx, init_data)
    }

    open spec fn needs_recalc_spec(ctx: B::RunCtx, init_data: B::StoreInitData) -> bool {
        B::store_changed::<T>(ctx, init_data)
    }

    /// Allocates a store that holds the default value of `T`.
    fn init(ctx: &mut B::RunCtx) -> (r: B::StoreInitData) {
        B::init_store(ctx, T::default())
    }

    fn deinit(ctx: &mut B::RunCtx, init_data: B::StoreInitData) {
        B::deinit_store(init_data, ctx)
    }

    fn get_item<'ctx, 's>(ctx: &'ctx B::RunCtx, init_data: &'s mut B::StoreInitData) -> (r: Store<
        'ctx,
        T,
        B,
    >)
        ensures
            r.spec_id() == B::store_id_spec(*old(init_data)),
            r.spec_value() == B::store_value::<T>(r.spec_id(), *ctx),
    {
        let id = B::id_from_store_init_data(init_data);
        Store { val: B::read_store_marked(id, ctx, init_data), id }
    }

    fn needs_recalc(ctx: &B::RunCtx, init_data: &B::StoreInitData) -> (r: bool) {
        B::check_store_needs_recalc::<T>(ctx, init_data)
    }
}

/// No hook parameter: nothing is kept and nothing ever changes.
impl<B: UiBackend> WidgetParam<B> for () {
    type InitData = ();

    type Item<'ctx, 's> = ();

    open spec fn created(ctx: B::RunCtx, init_data: (), after: B::RunCtx) -> bool {
        after == ctx
    }

    open spec fn ready(ctx: B::RunCtx, init_data: ()) -> bool {
        true
    }

    open spec fn deinit_spec(ctx: B::RunCtx, init_data: ()) -> B::RunCtx {
        ctx
    }

    open spec fn observed(ctx: B::RunCtx, init_data: ()) -> () {
        ()
    }

    open spec fn needs_recalc_spec(ctx: B::RunCtx, init_data: ()) -> bool {
        false
    }

    fn init(ctx: &mut B::RunCtx) -> (r: ()) {
    }

    fn deinit(ctx: &mut B::RunCtx, init_data: ()) {
    }

    fn get_item<'ctx, 's>(ctx: &'ctx B::RunCtx, init_data: &'s mut ()) -> (r: ()) {
    }

    fn needs_recalc(ctx: &B::RunCtx, init_data: &()) -> (r: bool) {
        false
    }
}

/// Two hook parameters side by side. They are allocated, observed and
/// released in this order, and the component has to be invoked again as
/// soon as either of them reports a change.
impl<B: UiBackend, Head: WidgetParam<B>, Tail: WidgetParam<B>> WidgetParam<B> for (Head, Tail) {
    type InitData = (Head::InitData, Tail::InitData);

    type Item<'ctx, 's> = (Head::Item<'ctx, 's>, Tail::Item<'ctx, 's>);

    open spec fn created(
        ctx: B::RunCtx,
        init_data: (Head::InitData, Tail::InitData),
        after: B::RunCtx,
    ) -> bool {
        exists|between: B::RunCtx|
            #![trigger Head::created(ctx, init_data.0, between)]
            Head::created(ctx, init_data.0, between) && Tail::created(between, init_data.1, after)
    }

    open spec fn ready(ctx: B::RunCtx, init_data: (Head::InitData, Tail::InitData)) -> bool {
        Head::ready(ctx, init_data.0) && Tail::ready(ctx, init_data.1)
    }

    open spec fn deinit_spec(ctx: B::RunCtx, init_data: (Head::InitData, Tail::InitData)) -> B::RunCtx {
        Tail::deinit_spec(Head::deinit_spec(ctx, init_data.0), init_data.1)
    }

    open spec fn observed(ctx: B::RunCtx, init_data: (Head::InitData, Tail::InitData)) -> (
        Head::InitData,
        Tail::InitData,
    ) {
        (Head::observed(ctx, init_data.0), Tail::observed(ctx, init_data.1))
    }

    open spec fn needs_recalc_spec(ctx: B::RunCtx, init_data: (Head::InitData, Tail::InitData)) -> bool {
        Head::needs_recalc_spec(ctx, init_data.0) || Tail::needs_recalc_spec(ctx, init_data.1)
    }

    fn init(ctx: &mut B::RunCtx) -> (r: (Head::InitData, Tail::InitData)) {
        let first = Head::init(ctx);
        let ghost between = *ctx;
        let second = Tail::init(ctx);
        let r = (first, second);
        assert(Head::created(*old(ctx), r.0, between) && Tail::created(between, r.1, *ctx));
        r
    }

    fn deinit(ctx: &mut B::RunCtx, init_data: (Head::InitData, Tail::InitData)) {
        let (first, second) = init_data;
        Head::deinit(ctx, first);
        Tail::deinit(ctx, second);
    }

    fn get_item<'ctx, 's>(ctx: &'ctx B::RunCtx, init_data: &'s mut (Head::InitData, Tail::InitData)) -> (r:
        (Head::Item<'ctx, 's>, Tail::Item<'ctx, 's>)) {
        let first = Head::get_item(ctx, &mut init_data.0);
        let second = Tail::get_item(ctx, &mut init_data.1);
        (first, second)
    }

    fn needs_recalc(ctx: &B::RunCtx, init_data: &(Head::InitData, Tail::InitData)) -> (r: bool) {
        Head::needs_recalc(ctx, &init_data.0) || Tail::needs_recalc(ctx, &init_data.1)
    }
}

} // verus!
