//! Laws of the machine that relate several operations, stated over the
//! mathematical model and proved once and for all.

use vstd::prelude::*;

use crate::machine::Wam;
use crate::term::{deref_spec, heap_wf, lemma_deref_after_bind, lemma_deref_terminal, TermView};

verus! {

/// Binding symmetry: when unification finds an unbound cell at the end of
/// `a`'s chain and a constant at the end of `b`'s, it binds the unbound
/// cell to the constant's address; afterwards dereferencing `a` reaches
/// exactly that constant cell, with its name unchanged.
pub proof fn lemma_binding_symmetry(h: Seq<TermView>, a: int, b: int)
    requires
        heap_wf(h),
        0 <= a < h.len(),
        0 <= b < h.len(),
        h[deref_spec(h, a)] is Unbound,
        h[deref_spec(h, b)] is Constant,
        deref_spec(h, a) != deref_spec(h, b),
    ensures
        ({
            let h2 = h.update(deref_spec(h, a), TermView::Ref(deref_spec(h, b)));
            deref_spec(h2, a) == deref_spec(h, b) && h2[deref_spec(h2, a)] == h[deref_spec(h, b)]
        }),
{
    let d1 = deref_spec(h, a);
    let d2 = deref_spec(h, b);
    lemma_deref_terminal(h, a);
    lemma_deref_terminal(h, b);
    lemma_deref_after_bind(h, d1, d2, a);
}

/// Environment discipline: pushing a frame whose caller link is the current
/// frame (as `Allocate` does) and then following that link back (as
/// `Deallocate` does) leaves the current frame pointer exactly as it was.
pub proof fn lemma_environment_discipline(pre: Wam, mid: Wam, post: Wam)
    requires
        mid.frames@.len() == pre.frames@.len() + 1,
        mid.frames@.last().previous == pre.current_frame,
        mid.current_frame matches Some(c) && c as int == pre.frames@.len()
            && post.current_frame == mid.frames@[c as int].previous,
    ensures
        post.current_frame == pre.current_frame,
{
}

} // verus!
