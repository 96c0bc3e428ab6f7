use vstd::prelude::*;

verus! {

/// A scoped override of one piece of ambient state.
///
/// Taking a guard installs a new value in the context and remembers the value it
/// replaces; `restore` puts the remembered value back. A caller that pairs every
/// `new` with a `restore`, on the error path as on the normal one, leaves the
/// guarded part of the context as it found it.
pub trait Guard<Ctx>: Sized {
    /// The part of a context that guards of this type override.
    type Value;

    /// The guarded part of `ctx`.
    spec fn guarded(ctx: &Ctx) -> Self::Value;

    /// The value that this guard puts back.
    spec fn saved(&self) -> Self::Value;

    /// Installs the guarded part of `new_ctx` in `ctx` and remembers what it replaces.
    fn new(ctx: &mut Ctx, new_ctx: Ctx) -> (guard: Self)
        ensures
            guard.saved() == Self::guarded(old(ctx)),
            Self::guarded(final(ctx)) == Self::guarded(&new_ctx),
    ;

    /// Puts the remembered value back.
    fn restore(&self, ctx: &mut Ctx)
        ensures
            Self::guarded(final(ctx)) == self.saved(),
    ;
}

} // verus!
