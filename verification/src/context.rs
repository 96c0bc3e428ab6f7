use crate::guard::Guard;
use vstd::prelude::*;

verus! {

/// The state of one parse: the indentation baseline of the block that is open.
///
/// A line belongs to the open block only if it is indented by more than the baseline.
#[derive(Clone)]
pub struct Context {
    pub indent: usize,
}

impl Context {
    /// A context whose baseline is `indent`.
    pub fn new(indent: usize) -> (ctx: Context)
        ensures
            ctx.indent == indent,
    {
        Context { indent }
    }

    /// Installs the baseline of `new_ctx` and returns the guard that restores the present one.
    pub fn guard(&mut self, new_ctx: Context) -> (guard: ContextGuard)
        ensures
            final(self).indent == new_ctx.indent,
            guard.saved() == old(self).indent,
    {
        ContextGuard::new(self, new_ctx)
    }
}

/// Remembers the baseline that a context had when the guard was taken.
pub struct ContextGuard {
    ctx: Context,
}

impl Guard<Context> for ContextGuard {
    type Value = usize;

    open spec fn guarded(ctx: &Context) -> usize {
        ctx.indent
    }

    closed spec fn saved(&self) -> usize {
        self.ctx.indent
    }

    fn new(ctx: &mut Context, new_ctx: Context) -> (guard: ContextGuard) {
        let previous = Context { indent: ctx.indent };
        ctx.indent = new_ctx.indent;
        ContextGuard { ctx: previous }
    }

    fn restore(&self, ctx: &mut Context) {
        ctx.indent = self.ctx.indent;
    }
}

} // verus!
