//! Terms, registers, instructions, errors and outcomes, together with the
//! mathematical model of the heap: cell well-formedness and dereferencing.

use vstd::prelude::*;

verus! {

/// A heap cell. A logic variable is a heap cell that starts as `Unbound`;
/// binding overwrites the cell, either with a forwarding pointer `Ref` to
/// another cell or with a `Constant`. `Structure` holds a functor name and
/// the heap addresses of its arguments.
#[derive(Debug, PartialEq)]
pub enum Term {
    Unbound,
    Ref(usize),
    Constant(String),
    Structure(String, Vec<usize>),
}

/// The mathematical value of a `Term`: addresses as `int`, names as `Seq<char>`.
pub enum TermView {
    Unbound,
    Ref(int),
    Constant(Seq<char>),
    Structure(Seq<char>, Seq<int>),
}

impl View for Term {
    type V = TermView;

    open spec fn view(&self) -> TermView {
        match self {
            Term::Unbound => TermView::Unbound,
            Term::Ref(a) => TermView::Ref(*a as int),
            Term::Constant(s) => TermView::Constant(s@),
            Term::Structure(f, args) => TermView::Structure(
                f@,
                args@.map_values(|u: usize| u as int),
            ),
        }
    }
}

impl Clone for Term {
    /// Clones a term; the copy has the same mathematical value.
    fn clone(&self) -> (res: Self)
        ensures
            res@ == self@,
    {
        match self {
            Term::Unbound => Term::Unbound,
            Term::Ref(a) => Term::Ref(*a),
            Term::Constant(s) => Term::Constant(s.clone()),
            Term::Structure(f, args) => {
                let res = Term::Structure(f.clone(), copy_addrs(args));
                proof {
                    assert(res@ matches TermView::Structure(g, ar) && g == f@
                        && ar =~= args@.map_values(|u: usize| u as int));
                }
                res
            },
        }
    }
}

/// Copies a vector of heap addresses element by element.
pub fn copy_addrs(v: &Vec<usize>) -> (r: Vec<usize>)
    ensures
        r@ == v@,
{
    let mut r: Vec<usize> = Vec::new();
    let mut i: usize = 0;
    while i < v.len()
        invariant
            i <= v@.len(),
            r@ == v@.subrange(0, i as int),
        decreases v@.len() - i,
    {
        r.push(v[i]);
        i = i + 1;
    }
    proof {
        assert(r@ =~= v@);
    }
    r
}

/// A register name: a slot of the current environment frame (`Permanent`)
/// or an index into the fixed file of temporaries (`Temporary`).
#[derive(Debug, Clone, Copy, PartialEq, Eq, Structural)]
pub enum Register {
    Permanent(usize),
    Temporary(usize),
}

/// The instruction set.
#[derive(Debug)]
pub enum Instruction {
    PutVariable(Register, Register),
    PutValue(Register, Register),
    GetVariable(Register, Register),
    GetValue(Register, Register),
    SetVariable(Register),
    SetValue(Register),
    Call(String),
    Proceed,
    Allocate(usize),
    Deallocate,
    UnifyVariable(Register),
    UnifyValue(Register),
}

/// The mathematical value of an `Instruction`.
pub enum InstructionView {
    PutVariable(Register, Register),
    PutValue(Register, Register),
    GetVariable(Register, Register),
    GetValue(Register, Register),
    SetVariable(Register),
    SetValue(Register),
    Call(Seq<char>),
    Proceed,
    Allocate(int),
    Deallocate,
    UnifyVariable(Register),
    UnifyValue(Register),
}

impl View for Instruction {
    type V = InstructionView;

    open spec fn view(&self) -> InstructionView {
        match self {
            Instruction::PutVariable(a, b) => InstructionView::PutVariable(*a, *b),
            Instruction::PutValue(a, b) => InstructionView::PutValue(*a, *b),
            Instruction::GetVariable(a, b) => InstructionView::GetVariable(*a, *b),
            Instruction::GetValue(a, b) => InstructionView::GetValue(*a, *b),
            Instruction::SetVariable(r) => InstructionView::SetVariable(*r),
            Instruction::SetValue(r) => InstructionView::SetValue(*r),
            Instruction::Call(name) => InstructionView::Call(name@),
            Instruction::Proceed => InstructionView::Proceed,
            Instruction::Allocate(n) => InstructionView::Allocate(*n as int),
            Instruction::Deallocate => InstructionView::Deallocate,
            Instruction::UnifyVariable(r) => InstructionView::UnifyVariable(*r),
            Instruction::UnifyValue(r) => InstructionView::UnifyValue(*r),
        }
    }
}

impl Clone for Instruction {
    /// Clones an instruction; the copy has the same mathematical value.
    fn clone(&self) -> (res: Self)
        ensures
            res@ == self@,
    {
        match self {
            Instruction::PutVariable(a, b) => Instruction::PutVariable(*a, *b),
            Instruction::PutValue(a, b) => Instruction::PutValue(*a, *b),
            Instruction::GetVariable(a, b) => Instruction::GetVariable(*a, *b),
            Instruction::GetValue(a, b) => Instruction::GetValue(*a, *b),
            Instruction::SetVariable(r) => Instruction::SetVariable(*r),
            Instruction::SetValue(r) => Instruction::SetValue(*r),
            Instruction::Call(name) => Instruction::Call(name.clone()),
            Instruction::Proceed => Instruction::Proceed,
            Instruction::Allocate(n) => Instruction::Allocate(*n),
            Instruction::Deallocate => Instruction::Deallocate,
            Instruction::UnifyVariable(r) => Instruction::UnifyVariable(*r),
            Instruction::UnifyValue(r) => Instruction::UnifyValue(*r),
        }
    }
}

/// Machine errors. The first three and `NoActiveStructure` are fatal errors
/// against malformed bytecode; `UnificationFailure` is recoverable through
/// backtracking and becomes terminal only once no choice point remains.
#[derive(Debug, Clone, Copy, PartialEq, Eq, Structural)]
pub enum WamError {
    StackOverflow,
    StackUnderflow,
    UnknownProcedure,
    UnificationFailure,
    NoActiveStructure,
}

/// How a run ends: the query succeeded, or it failed with a reason.
#[derive(Debug, Clone, Copy, PartialEq, Eq, Structural)]
pub enum Halted {
    Success,
    Failure(WamError),
}

/// The result of executing one instruction.
#[derive(Debug, Clone, Copy, PartialEq, Eq, Structural)]
pub enum Outcome {
    Continuing,
    Halted(Halted),
}

/// The mathematical view of a sequence of terms.
pub open spec fn terms_v(v: Seq<Term>) -> Seq<TermView> {
    v.map_values(|t: Term| t@)
}

/// The mathematical view of a sequence of heap addresses.
pub open spec fn addrs_v(v: Seq<usize>) -> Seq<int> {
    v.map_values(|u: usize| u as int)
}

/// Well-formedness of one heap cell. A forwarding pointer either points to
/// an older cell, or points to a cell that is already a constant or a
/// structure (and can therefore never be overwritten while the pointer
/// exists). Structure arguments always point to older cells.
pub open spec fn cell_wf(h: Seq<TermView>, a: int) -> bool {
    match h[a] {
        TermView::Ref(b) => 0 <= b < h.len() && (b < a || h[b] is Constant || h[b] is Structure),
        TermView::Structure(_, args) => forall|j: int|
            0 <= j < args.len() ==> 0 <= #[trigger] args[j] < a,
        _ => true,
    }
}

/// Well-formedness of the whole heap: following `Ref` pointers from any cell
/// terminates, because each hop either decreases the address or reaches a
/// bound, never-rewritten cell in one step.
pub open spec fn heap_wf(h: Seq<TermView>) -> bool {
    forall|a: int| 0 <= a < h.len() ==> #[trigger] cell_wf(h, a)
}

/// Dereference: follow `Ref` pointers from `a` to the terminal cell and
/// return its address. The terminal cell is `Unbound`, a `Constant` or a
/// `Structure`.
pub open spec fn deref_spec(h: Seq<TermView>, a: int) -> int
    decreases a,
{
    match h[a] {
        TermView::Ref(b) => if 0 <= b < a {
            deref_spec(h, b)
        } else {
            b
        },
        _ => a,
    }
}

/// On a well-formed heap, dereferencing lands on a terminal (non-`Ref`) cell
/// at a valid address.
pub proof fn lemma_deref_terminal(h: Seq<TermView>, a: int)
    requires
        heap_wf(h),
        0 <= a < h.len(),
    ensures
        0 <= deref_spec(h, a) < h.len(),
        !(h[deref_spec(h, a)] is Ref),
        deref_spec(h, a) <= a || h[deref_spec(h, a)] is Constant || h[deref_spec(h, a)]
            is Structure,
    decreases a,
{
    if let TermView::Ref(b) = h[a] {
        assert(cell_wf(h, a));
        if 0 <= b < a {
            lemma_deref_terminal(h, b);
        }
    }
}

/// The second heap differs from the first only in that some unbound cells
/// have been bound.
pub open spec fn bound_only(h: Seq<TermView>, h2: Seq<TermView>) -> bool {
    &&& h2.len() == h.len()
    &&& forall|c: int|
        0 <= c < h.len() && #[trigger] h2[c] != h[c] ==> (h[c] is Unbound) && !(h2[c] is Unbound)
}

/// The functor of a structure cell; the empty name elsewhere.
pub open spec fn struct_functor(t: TermView) -> Seq<char> {
    match t {
        TermView::Structure(f, _) => f,
        _ => Seq::empty(),
    }
}

/// The argument addresses of a structure cell; empty elsewhere.
pub open spec fn struct_args(t: TermView) -> Seq<int> {
    match t {
        TermView::Structure(_, a) => a,
        _ => Seq::empty(),
    }
}

/// The terms at `x` and `y` are equal under the bindings in `h`, to nesting
/// depth `n`: their chains end at the same cell, or at constants with one
/// name, or at structures with one functor and arity whose arguments are
/// pairwise equal one level deeper.
pub open spec fn unified(h: Seq<TermView>, x: int, y: int, n: nat) -> bool
    decreases n, 0nat,
{
    let d1 = deref_spec(h, x);
    let d2 = deref_spec(h, y);
    ||| d1 == d2
    ||| (h[d1] matches TermView::Constant(c1) && h[d2] matches TermView::Constant(c2) && c1
        == c2)
    ||| (n > 0 && unified_struct(h, d1, d2, (n - 1) as nat))
}

/// The cells at `d1` and `d2` are structures with one functor and arity
/// whose arguments are pairwise unified to depth `n`.
pub open spec fn unified_struct(h: Seq<TermView>, d1: int, d2: int, n: nat) -> bool
    decreases n, 1nat,
{
    &&& h[d1] is Structure
    &&& h[d2] is Structure
    &&& struct_functor(h[d1]) == struct_functor(h[d2])
    &&& struct_args(h[d1]).len() == struct_args(h[d2]).len()
    &&& forall|j: int|
        0 <= j < struct_args(h[d1]).len() ==> unified(
            h,
            #[trigger] struct_args(h[d1])[j],
            struct_args(h[d2])[j],
            n,
        )
}

/// After further bindings, a chain continues from wherever it used to end.
pub proof fn lemma_deref_extend(h: Seq<TermView>, h2: Seq<TermView>, a: int)
    requires
        heap_wf(h),
        bound_only(h, h2),
        0 <= a < h.len(),
    ensures
        deref_spec(h2, a) == deref_spec(h2, deref_spec(h, a)),
    decreases a,
{
    if let TermView::Ref(b) = h[a] {
        assert(cell_wf(h, a));
        assert(h2[a] == h[a]);
        if 0 <= b < a {
            lemma_deref_extend(h, h2, b);
        } else {
            assert(h2[b] == h[b]);
        }
    }
}

/// Terms that are unified stay unified as further bindings are made.
pub proof fn lemma_unified_stable(h: Seq<TermView>, h2: Seq<TermView>, x: int, y: int, n: nat)
    requires
        heap_wf(h),
        bound_only(h, h2),
        0 <= x < h.len(),
        0 <= y < h.len(),
        unified(h, x, y, n),
    ensures
        unified(h2, x, y, n),
    decreases n, 0nat,
{
    let d1 = deref_spec(h, x);
    let d2 = deref_spec(h, y);
    lemma_deref_terminal(h, x);
    lemma_deref_terminal(h, y);
    lemma_deref_extend(h, h2, x);
    lemma_deref_extend(h, h2, y);
    if d1 == d2 {
    } else if h[d1] matches TermView::Constant(c1) && h[d2] matches TermView::Constant(c2) && c1
        == c2 {
        assert(h2[d1] == h[d1]);
        assert(h2[d2] == h[d2]);
        assert(deref_spec(h2, d1) == d1);
        assert(deref_spec(h2, d2) == d2);
    } else {
        assert(n > 0 && unified_struct(h, d1, d2, (n - 1) as nat));
        lemma_unified_struct_stable(h, h2, d1, d2, (n - 1) as nat);
        assert(h2[d1] == h[d1]);
        assert(h2[d2] == h[d2]);
        assert(deref_spec(h2, d1) == d1);
        assert(deref_spec(h2, d2) == d2);
    }
}

/// Structures whose arguments are pairwise unified stay so as further
/// bindings are made.
pub proof fn lemma_unified_struct_stable(
    h: Seq<TermView>,
    h2: Seq<TermView>,
    d1: int,
    d2: int,
    n: nat,
)
    requires
        heap_wf(h),
        bound_only(h, h2),
        0 <= d1 < h.len(),
        0 <= d2 < h.len(),
        unified_struct(h, d1, d2, n),
    ensures
        unified_struct(h2, d1, d2, n),
    decreases n, 1nat,
{
    assert(h[d1] is Structure);
    assert(cell_wf(h, d1));
    assert(cell_wf(h, d2));
    assert(h2[d1] == h[d1]);
    assert(h2[d2] == h[d2]);
    let a1 = struct_args(h[d1]);
    let a2 = struct_args(h[d2]);
    assert forall|j: int| 0 <= j < struct_args(h2[d1]).len() implies unified(
        h2,
        #[trigger] struct_args(h2[d1])[j],
        struct_args(h2[d2])[j],
        n,
    ) by {
        assert(struct_args(h2[d1]) == a1 && struct_args(h2[d2]) == a2);
        assert(unified(h, a1[j], a2[j], n));
        assert(0 <= a1[j] < h.len() && 0 <= a2[j] < h.len());
        lemma_unified_stable(h, h2, a1[j], a2[j], n);
    }
}

/// A binding at `u` does not change where any other chain ends, as long as
/// the chain does not pass through `u`. What this file needs is the simpler
/// direction: dereferencing is unchanged on cells whose chain ends elsewhere.
pub proof fn lemma_deref_update_other(h: Seq<TermView>, u: int, t: TermView, a: int)
    requires
        heap_wf(h),
        0 <= a < h.len(),
        0 <= u < h.len(),
        h[u] is Unbound,
        deref_spec(h, a) != u,
    ensures
        deref_spec(h.update(u, t), a) == deref_spec(h, a),
    decreases a,
{
    if a != u {
        if let TermView::Ref(b) = h[a] {
            assert(cell_wf(h, a));
            if 0 <= b < a {
                lemma_deref_update_other(h, u, t, b);
            }
        }
    }
}

/// After binding the unbound cell `u` to point at the terminal cell `v`,
/// every chain that used to end at `u` now ends at `v`, and every other
/// chain ends where it did.
pub proof fn lemma_deref_after_bind(h: Seq<TermView>, u: int, v: int, a: int)
    requires
        heap_wf(h),
        0 <= a < h.len(),
        0 <= u < h.len(),
        0 <= v < h.len(),
        h[u] is Unbound,
        !(h[v] is Ref),
        u != v,
        v < u || h[v] is Constant || h[v] is Structure,
    ensures
        deref_spec(h, a) == u ==> deref_spec(h.update(u, TermView::Ref(v)), a) == deref_spec(
            h,
            v,
        ),
        deref_spec(h, a) != u ==> deref_spec(h.update(u, TermView::Ref(v)), a) == deref_spec(
            h,
            a,
        ),
    decreases a,
{
    let h2 = h.update(u, TermView::Ref(v));
    if deref_spec(h, a) == u {
        if a == u {
            // h2[u] == Ref(v): one hop to v, which is terminal in h2 as well.
            if v < u {
                lemma_deref_update_other(h, u, TermView::Ref(v), v);
            }
        } else {
            if let TermView::Ref(b) = h[a] {
                assert(cell_wf(h, a));
                if 0 <= b < a {
                    lemma_deref_after_bind(h, u, v, b);
                } else {
                    // terminal reached in one hop: that terminal is not Unbound,
                    // so it cannot be u
                    assert(false);
                }
            }
        }
    } else {
        lemma_deref_update_other(h, u, TermView::Ref(v), a);
    }
}

} // verus!
