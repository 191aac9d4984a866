//! The builtin callables registered in the initial environment.

use vstd::prelude::*;

use crate::types::{heap_extends, BuiltinOp, Form, Heap, Object, Val};

verus! {

/// A callable performing one binary arithmetic operation over numbers,
/// ready to be bound in an environment.
pub fn binary_operation(op: BuiltinOp, heap: &mut Heap) -> (r: Object)
    requires
        old(heap).wf(),
    ensures
        final(heap).wf(),
        heap_extends(final(heap).nodes@, old(heap).nodes@),
        final(heap).contains(r),
        final(heap).tree(r) == Val::Callable(op, Seq::<Val>::empty()),
{
    heap.intern(Form::builtin(op))
}

} // verus!
