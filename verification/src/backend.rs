//! What the engine asks of a host backend.
use vstd::prelude::*;

verus! {

/// The capabilities a host backend provides to the engine.
///
/// Each executable method comes with a specification function that names its
/// outcome as a function of its arguments. Implementations written outside of
/// the verifier are taken at their word: the engine's guarantees hold for
/// backends whose methods are deterministic in their arguments.
pub trait UiBackend: Sized {
    /// One renderable primitive, carried opaquely by leaf nodes.
    type Unit;

    /// The host context handed through every engine operation.
    type RunCtx;

    /// Type-erased properties of a widget or effect function.
    type Props;

    /// Type-erased hook state of one mounted instance.
    type State;

    /// The cleanup action an effect run hands back.
    type Cleanup;

    /// A dependency that a widget function registers while it is called: a
    /// test on the host context that tells when the call is out of date.
    type Dep;

    /// The uniform object behind which every widget function is stored.
    type WidgetFn;

    /// The uniform object behind which every effect function is stored.
    type EffectFn;

    /// The handle of a store: a host-owned mutable cell.
    type StoreId: Copy;

    /// What a component keeps of a store it allocated: the handle and the
    /// version of the cell that it last observed.
    type StoreInitData;

    /// The host context after the backend has been told of an update.
    open spec fn mark_update_spec(ctx: Self::RunCtx) -> Self::RunCtx {
        arbitrary()
    }

    /// The host context after a cleanup action has run in it.
    open spec fn cleanup_spec(ctx: Self::RunCtx, cleanup: Self::Cleanup) -> Self::RunCtx {
        arbitrary()
    }

    /// Whether the dependency reports a change in `ctx`.
    open spec fn dep_changed_spec(ctx: Self::RunCtx, dep: Self::Dep) -> bool {
        arbitrary()
    }

    /// The bookkeeping of a store allocated with `val`, and the host context
    /// after the allocation.
    open spec fn init_store_spec<T>(ctx: Self::RunCtx, val: T) -> (
        Self::StoreInitData,
        Self::RunCtx,
    ) {
        arbitrary()
    }

    /// The host context after the store behind `data` has been released.
    open spec fn deinit_store_spec(data: Self::StoreInitData, ctx: Self::RunCtx) -> Self::RunCtx {
        arbitrary()
    }

    /// The handle kept in `data`.
    open spec fn store_id_spec(data: Self::StoreInitData) -> Self::StoreId {
        arbitrary()
    }

    /// Whether `id` refers to a store of values of type `T` that has been
    /// allocated and not released.
    open spec fn has_store<T>(id: Self::StoreId, ctx: Self::RunCtx) -> bool {
        arbitrary()
    }

    /// The value of the store `id`.
    open spec fn store_value<T>(id: Self::StoreId, ctx: Self::RunCtx) -> T {
        arbitrary()
    }

    /// The host context after `val` has been written to the store `id`.
    open spec fn store_written<T>(id: Self::StoreId, ctx: Self::RunCtx, val: T) -> Self::RunCtx {
        arbitrary()
    }

    /// The bookkeeping `data` after the current version of its store has
    /// been recorded in it.
    open spec fn store_marked<T>(ctx: Self::RunCtx, data: Self::StoreInitData) -> Self::StoreInitData {
        arbitrary()
    }

    /// Whether the store behind `data` has changed since the version
    /// recorded in `data`.
    open spec fn store_changed<T>(ctx: Self::RunCtx, data: Self::StoreInitData) -> bool {
        arbitrary()
    }

    /// Tells the backend that a reconciliation pass is over.
    fn mark_update(ctx: &mut Self::RunCtx)
        ensures
            *final(ctx) == Self::mark_update_spec(*old(ctx)),
    ;

    /// Runs a cleanup action, consuming it.
    fn run_cleanup(ctx: &mut Self::RunCtx, cleanup: Self::Cleanup)
        ensures
            *final(ctx) == Self::cleanup_spec(*old(ctx), cleanup),
    ;

    /// Tells whether a registered dependency reports a change.
    fn dep_changed(ctx: &Self::RunCtx, dep: &Self::Dep) -> (r: bool)
        ensures
            r == Self::dep_changed_spec(*ctx, *dep),
    ;

    /// Tells whether `id` refers to a store of values of type `T` that has
    /// been allocated and not released.
    fn store_exists<T: Send + Sync + 'static>(id: Self::StoreId, ctx: &Self::RunCtx) -> (r: bool)
        ensures
            r == Self::has_store::<T>(id, *ctx),
    ;

    /// Grants write access to the value of a store. The store counts as
    /// changed from then on.
    fn access_store_mut<'a, T: Send + Sync + 'static>(
        id: Self::StoreId,
        ctx: &'a mut Self::RunCtx,
    ) -> (r: &'a mut T)
        requires
            Self::has_store::<T>(id, *old(ctx)),
        ensures
            *r == Self::store_value::<T>(id, *old(ctx)),
            *final(ctx) == Self::store_written::<T>(id, *old(ctx), *final(r)),
    ;

    /// Reads the value of a store.
    fn access_store<'a, T: Send + Sync + 'static>(id: Self::StoreId, ctx: &'a Self::RunCtx) -> (r:
        &'a T)
        requires
            Self::has_store::<T>(id, *ctx),
        ensures
            *r == Self::store_value::<T>(id, *ctx),
    ;

    /// Reads the value of a store and records its current version in
    /// `init_data`.
    fn read_store_marked<'a, T: Send + Sync + 'static>(
        id: Self::StoreId,
        ctx: &'a Self::RunCtx,
        init_data: &mut Self::StoreInitData,
    ) -> (r: &'a T)
        requires
            Self::has_store::<T>(id, *ctx),
            id == Self::store_id_spec(*old(init_data)),
        ensures
            *r == Self::store_value::<T>(id, *ctx),
            *final(init_data) == Self::store_marked::<T>(*ctx, *old(init_data)),
    ;

    /// Allocates a store that holds `val`. The store is there from then on,
    /// until it is released.
    fn init_store<T: Send + Sync + 'static>(ctx: &mut Self::RunCtx, val: T) -> (r:
        Self::StoreInitData)
        ensures
            (r, *final(ctx)) == Self::init_store_spec(*old(ctx), val),
            Self::has_store::<T>(Self::store_id_spec(r), *final(ctx)),
            Self::store_value::<T>(Self::store_id_spec(r), *final(ctx)) == val,
    ;

    /// Releases the store behind `data`.
    fn deinit_store(data: Self::StoreInitData, ctx: &mut Self::RunCtx)
        ensures
            *final(ctx) == Self::deinit_store_spec(data, *old(ctx)),
    ;

    /// The handle kept in `data`.
    fn id_from_store_init_data(data: &Self::StoreInitData) -> (r: Self::StoreId)
        ensures
            r == Self::store_id_spec(*data),
    ;

    /// Tells whether the store behind `init_data` has changed since the
    /// version recorded there.
    fn check_store_needs_recalc<T: Send + Sync + 'static>(
        ctx: &Self::RunCtx,
        init_data: &Self::StoreInitData,
    ) -> (r: bool)
        ensures
            r == Self::store_changed::<T>(*ctx, *init_data),
    ;
}

} // verus!
