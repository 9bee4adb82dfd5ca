//! The machine: heap, register file, environment stack, trail, choice
//! points, and the instruction interpreter.

use vstd::prelude::*;

use crate::term::{
    addrs_v, bound_only, cell_wf, copy_addrs, deref_spec, heap_wf, lemma_deref_after_bind,
    lemma_deref_extend, lemma_deref_terminal, lemma_unified_stable, struct_args, struct_functor,
    terms_v, unified, unified_struct, Halted, Instruction, InstructionView, Outcome, Register,
    Term, TermView, WamError,
};

verus! {

/// Number of temporary registers.
pub const REG_COUNT: usize = 100;

/// An environment frame: permanent-variable slots, the continuation (return)
/// address, and the index of the caller's frame in the frame arena.
pub struct Frame {
    pub slots: Vec<Term>,
    pub continuation: usize,
    pub previous: Option<usize>,
}

/// A choice point: the machine snapshot needed to retry an alternative.
pub struct ChoicePoint {
    pub heap_size: usize,
    pub trail_len: usize,
    pub alternative: usize,
    pub saved_registers: Vec<Term>,
    pub saved_frames: Vec<Frame>,
    pub saved_frame: Option<usize>,
    pub saved_continuation: usize,
}

/// Structure construction and matching state: `Writing` collects the
/// argument addresses of a structure being built, `Reading` is a cursor over
/// the arguments of a structure being matched.
pub enum BuildMode {
    Idle,
    Writing(String, Vec<usize>),
    Reading(usize, usize),
}

/// The Warren Abstract Machine.
pub struct Wam {
    pub heap: Vec<Term>,
    pub registers: Vec<Term>,
    pub trail: Vec<usize>,
    pub frames: Vec<Frame>,
    pub current_frame: Option<usize>,
    pub choice_points: Vec<ChoicePoint>,
    pub program: Vec<Instruction>,
    pub program_counter: usize,
    pub continuation: usize,
    pub symbols: Vec<(String, usize)>,
    pub mode: BuildMode,
}

/// A term that a register or a frame slot may hold: the address of a heap
/// cell, or an inline constant. Registers never hold a bare `Unbound` or an
/// inline structure.
pub open spec fn reg_term_ok(t: TermView, hlen: int) -> bool {
    match t {
        TermView::Ref(b) => 0 <= b < hlen,
        TermView::Constant(_) => true,
        _ => false,
    }
}

/// Well-formedness of a frame at position `idx` of the arena: every slot
/// holds a register term, and the caller link points strictly earlier.
pub open spec fn frame_ok(f: Frame, hlen: int, idx: int) -> bool {
    &&& forall|j: int|
        0 <= j < f.slots@.len() ==> reg_term_ok(#[trigger] f.slots@[j]@, hlen)
    &&& match f.previous {
        Some(p) => (p as int) < idx,
        None => true,
    }
}

/// Whether address `a` occurs in the trail at or after position `from`.
pub open spec fn trailed_since(tr: Seq<int>, from: int, a: int) -> bool {
    exists|k: int| from <= k < tr.len() && tr[k] == a
}

/// A cell below a choice point's saved heap size that was not trailed since
/// that choice point cannot reach, through its forwarding pointer, any cell
/// that backtracking to the choice point would reset or discard.
pub open spec fn cell_stable(h: Seq<TermView>, tr: Seq<int>, tl: int, hs: int, a: int) -> bool {
    match h[a] {
        TermView::Ref(b) => 0 <= b < hs && (b < a || ((h[b] is Constant || h[b] is Structure)
            && !trailed_since(tr, tl, b))),
        _ => true,
    }
}

/// Well-formedness of a choice point against the current heap and trail.
pub open spec fn cp_ok(cp: ChoicePoint, h: Seq<TermView>, tr: Seq<int>) -> bool {
    let hs = cp.heap_size as int;
    let tl = cp.trail_len as int;
    &&& hs <= h.len()
    &&& tl <= tr.len()
    &&& cp.saved_registers@.len() == REG_COUNT
    &&& forall|j: int|
        0 <= j < cp.saved_registers@.len() ==> reg_term_ok(
            #[trigger] cp.saved_registers@[j]@,
            hs,
        )
    &&& forall|i: int|
        0 <= i < cp.saved_frames@.len() ==> frame_ok(#[trigger] cp.saved_frames@[i], hs, i)
    &&& match cp.saved_frame {
        Some(c) => (c as int) < cp.saved_frames@.len(),
        None => true,
    }
    &&& forall|k: int| 0 <= k < tl ==> 0 <= #[trigger] tr[k] < hs
    &&& forall|a: int|
        0 <= a < hs && !trailed_since(tr, tl, a) ==> #[trigger] cell_stable(h, tr, tl, hs, a)
}

impl Wam {
    /// Heap size, as a mathematical integer.
    pub open spec fn hlen(self) -> int {
        self.heap@.len() as int
    }

    /// The heap as a sequence of mathematical term values.
    pub open spec fn heap_v(self) -> Seq<TermView> {
        terms_v(self.heap@)
    }

    /// The trail as a sequence of addresses.
    pub open spec fn trail_v(self) -> Seq<int> {
        addrs_v(self.trail@)
    }

    /// Well-formedness of the construction / matching state.
    pub open spec fn mode_ok(self) -> bool {
        match self.mode {
            BuildMode::Idle => true,
            BuildMode::Writing(_, args) => forall|j: int|
                0 <= j < args@.len() ==> 0 <= #[trigger] args@[j] < self.hlen(),
            BuildMode::Reading(s, k) => (s as int) < self.hlen() && (self.heap_v()[s as int]
                matches TermView::Structure(_, ar) && k <= ar.len()),
        }
    }

    /// The machine invariant. Every public operation preserves it.
    pub open spec fn wf(self) -> bool {
        &&& self.registers@.len() == REG_COUNT
        &&& heap_wf(self.heap_v())
        &&& forall|j: int|
            0 <= j < self.registers@.len() ==> reg_term_ok(
                #[trigger] self.registers@[j]@,
                self.hlen(),
            )
        &&& forall|i: int|
            0 <= i < self.frames@.len() ==> frame_ok(#[trigger] self.frames@[i], self.hlen(), i)
        &&& match self.current_frame {
            Some(c) => (c as int) < self.frames@.len(),
            None => true,
        }
        &&& forall|k: int|
            0 <= k < self.trail_v().len() ==> 0 <= #[trigger] self.trail_v()[k] < self.hlen()
        &&& forall|k: int|
            0 <= k < self.trail_v().len() ==> !(self.heap_v()[#[trigger] self.trail_v()[k]]
                is Unbound)
        &&& forall|k1: int, k2: int|
            0 <= k1 < k2 < self.trail_v().len() ==> self.trail_v()[k1] != self.trail_v()[k2]
        &&& forall|i: int|
            0 <= i < self.choice_points@.len() ==> cp_ok(
                #[trigger] self.choice_points@[i],
                self.heap_v(),
                self.trail_v(),
            )
        &&& forall|i: int, j: int|
            0 <= i < j < self.choice_points@.len()
                ==> self.choice_points@[i].heap_size <= self.choice_points@[j].heap_size
                && self.choice_points@[i].trail_len <= self.choice_points@[j].trail_len
        &&& self.mode_ok()
    }

    /// A fresh machine: empty heap, trail, stacks and program; the temporary
    /// registers are filled with a placeholder constant.
    pub fn new() -> (m: Wam)
        ensures
            m.wf(),
            m.hlen() == 0,
            m.trail_v().len() == 0,
            m.frames@.len() == 0,
            m.current_frame is None,
            m.choice_points@.len() == 0,
            m.program@.len() == 0,
            m.program_counter == 0,
            m.continuation == 0,
            m.symbols@.len() == 0,
            m.mode is Idle,
            m.registers@.len() == REG_COUNT,
            forall|j: int|
                0 <= j < REG_COUNT ==> #[trigger] m.registers@[j]@ == TermView::Constant(
                    "undefined"@,
                ),
    {
        let mut registers: Vec<Term> = Vec::new();
        let mut i: usize = 0;
        while i < REG_COUNT
            invariant
                i <= REG_COUNT,
                registers@.len() == i,
                forall|j: int|
                    0 <= j < i ==> #[trigger] registers@[j]@ == TermView::Constant("undefined"@),
            decreases REG_COUNT - i,
        {
            registers.push(Term::Constant("undefined".to_owned()));
            i = i + 1;
        }
        Wam {
            heap: Vec::new(),
            registers,
            trail: Vec::new(),
            frames: Vec::new(),
            current_frame: None,
            choice_points: Vec::new(),
            program: Vec::new(),
            program_counter: 0,
            continuation: 0,
            symbols: Vec::new(),
            mode: BuildMode::Idle,
        }
    }

    /// Load a program and its procedure table, resetting the program counter.
    /// The rest of the machine state is preserved; a caller that wants a
    /// fresh machine constructs one first.
    pub fn load_program(&mut self, instructions: Vec<Instruction>, symbols: Vec<(String, usize)>)
        requires
            old(self).wf(),
        ensures
            final(self).wf(),
            final(self).program == instructions,
            final(self).symbols == symbols,
            final(self).program_counter == 0,
            final(self).heap == old(self).heap,
            final(self).registers == old(self).registers,
            final(self).trail == old(self).trail,
            final(self).frames == old(self).frames,
            final(self).current_frame == old(self).current_frame,
            final(self).choice_points == old(self).choice_points,
            final(self).continuation == old(self).continuation,
            final(self).mode == old(self).mode,
    {
        self.program = instructions;
        self.symbols = symbols;
        self.program_counter = 0;
    }

    /// Current program counter.
    pub fn program_counter(&self) -> (r: usize)
        ensures
            r == self.program_counter,
    {
        self.program_counter
    }

    /// Current heap size.
    pub fn heap_size(&self) -> (r: usize)
        ensures
            r as int == self.hlen(),
    {
        self.heap.len()
    }

    /// Current trail length.
    pub fn trail_length(&self) -> (r: usize)
        ensures
            r as int == self.trail_v().len(),
    {
        self.trail.len()
    }

    /// Number of choice points on the stack.
    pub fn choice_point_depth(&self) -> (r: usize)
        ensures
            r as int == self.choice_points@.len(),
    {
        self.choice_points.len()
    }

    /// A snapshot of the temporary registers.
    pub fn temporaries(&self) -> (r: Vec<Term>)
        ensures
            r@.len() == self.registers@.len(),
            forall|j: int| 0 <= j < r@.len() ==> #[trigger] r@[j]@ == self.registers@[j]@,
    {
        copy_terms(&self.registers)
    }

    /// Append a fresh unbound cell; returns its address.
    pub fn new_unbound(&mut self) -> (addr: usize)
        requires
            old(self).wf(),
        ensures
            final(self).wf(),
            addr as int == old(self).hlen(),
            final(self).hlen() == old(self).hlen() + 1,
            final(self).heap_v() == old(self).heap_v().push(TermView::Unbound),
            unchanged_but_heap(*old(self), *final(self)),
    {
        let addr = self.heap.len();
        self.push_cell(Term::Unbound);
        addr
    }

    /// Append a constant cell; returns its address.
    pub fn new_constant(&mut self, name: String) -> (addr: usize)
        requires
            old(self).wf(),
        ensures
            final(self).wf(),
            addr as int == old(self).hlen(),
            final(self).hlen() == old(self).hlen() + 1,
            final(self).heap_v() == old(self).heap_v().push(TermView::Constant(name@)),
            unchanged_but_heap(*old(self), *final(self)),
    {
        let addr = self.heap.len();
        self.push_cell(Term::Constant(name));
        addr
    }

    /// Append a structure cell whose arguments are existing heap addresses;
    /// returns its address.
    pub fn new_structure(&mut self, functor: String, args: Vec<usize>) -> (addr: usize)
        requires
            old(self).wf(),
            forall|j: int| 0 <= j < args@.len() ==> (#[trigger] args@[j] as int) < old(self).hlen(),
        ensures
            final(self).wf(),
            addr as int == old(self).hlen(),
            final(self).hlen() == old(self).hlen() + 1,
            final(self).heap_v() == old(self).heap_v().push(
                TermView::Structure(functor@, addrs_v(args@)),
            ),
            unchanged_but_heap(*old(self), *final(self)),
    {
        let addr = self.heap.len();
        self.push_cell(Term::Structure(functor, args));
        addr
    }

    /// Append one well-formed cell to the heap.
    fn push_cell(&mut self, t: Term)
        requires
            old(self).wf(),
            !(t@ is Ref),
            t@ matches TermView::Structure(_, ar) ==> forall|j: int|
                0 <= j < ar.len() ==> 0 <= #[trigger] ar[j] < old(self).hlen(),
        ensures
            final(self).wf(),
            final(self).hlen() == old(self).hlen() + 1,
            final(self).heap_v() == old(self).heap_v().push(t@),
            unchanged_but_heap(*old(self), *final(self)),
    {
        let ghost pre = *self;
        self.heap.push(t);
        proof {
            let h = pre.heap_v();
            let h2 = self.heap_v();
            assert(h2 =~= h.push(t@));
            assert forall|a: int| 0 <= a < h2.len() implies #[trigger] cell_wf(h2, a) by {
                if a < h.len() {
                    assert(cell_wf(h, a));
                } else {
                    assert(h2[a] == t@);
                }
            }
            assert forall|i: int| 0 <= i < self.choice_points@.len() implies cp_ok(
                #[trigger] self.choice_points@[i],
                h2,
                self.trail_v(),
            ) by {
                let cp = self.choice_points@[i];
                assert(cp_ok(cp, h, pre.trail_v()));
                let hs = cp.heap_size as int;
                let tl = cp.trail_len as int;
                assert forall|a: int|
                    0 <= a < hs && !trailed_since(self.trail_v(), tl, a) implies #[trigger]
                    cell_stable(h2, self.trail_v(), tl, hs, a) by {
                    assert(cell_stable(h, pre.trail_v(), tl, hs, a));
                }
            }
        }
    }
}

/// Whether address `a` occurs in the trail between positions `from`
/// (inclusive) and `to` (exclusive).
pub open spec fn trailed_before(tr: Seq<int>, from: int, to: int, a: int) -> bool {
    exists|k: int| from <= k < to && k < tr.len() && tr[k] == a
}

/// Appending to the trail adds exactly one address to every suffix.
pub proof fn lemma_trailed_push(tr: Seq<int>, from: int, u: int, a: int)
    requires
        0 <= from <= tr.len(),
    ensures
        trailed_since(tr.push(u), from, a) <==> (trailed_since(tr, from, a) || a == u),
{
    let tr2 = tr.push(u);
    if trailed_since(tr2, from, a) {
        let k = choose|k: int| from <= k < tr2.len() && tr2[k] == a;
        if k < tr.len() {
            assert(tr[k] == a);
        }
    }
    if trailed_since(tr, from, a) {
        let k = choose|k: int| from <= k < tr.len() && tr[k] == a;
        assert(tr2[k] == a);
    }
    if a == u {
        assert(tr2[tr.len() as int] == a);
    }
}

/// A suffix of the trail splits at any position into a part inside the
/// prefix and a later suffix.
pub proof fn lemma_trailed_split(tr: Seq<int>, l1: int, l2: int, a: int)
    requires
        0 <= l1 <= l2 <= tr.len(),
    ensures
        trailed_since(tr, l1, a) <==> (trailed_since(tr.subrange(0, l2), l1, a) || trailed_since(
            tr,
            l2,
            a,
        )),
{
    let p = tr.subrange(0, l2);
    if trailed_since(tr, l1, a) {
        let k = choose|k: int| l1 <= k < tr.len() && tr[k] == a;
        if k < l2 {
            assert(p[k] == a);
        }
    }
    if trailed_since(p, l1, a) {
        let k = choose|k: int| l1 <= k < p.len() && p[k] == a;
        assert(tr[k] == a);
    }
}

/// Widening a suffix keeps every address it contains.
pub proof fn lemma_trailed_widen(tr: Seq<int>, l1: int, l2: int, a: int)
    requires
        0 <= l1 <= l2,
        trailed_since(tr, l2, a),
    ensures
        trailed_since(tr, l1, a),
{
    let k = choose|k: int| l2 <= k < tr.len() && tr[k] == a;
    assert(l1 <= k < tr.len() && tr[k] == a);
}

/// Everything except the heap and the trail is unchanged.
pub open spec fn unchanged_but_heap_trail(pre: Wam, post: Wam) -> bool {
    &&& post.registers == pre.registers
    &&& post.frames == pre.frames
    &&& post.current_frame == pre.current_frame
    &&& post.choice_points == pre.choice_points
    &&& post.program == pre.program
    &&& post.program_counter == pre.program_counter
    &&& post.continuation == pre.continuation
    &&& post.symbols == pre.symbols
    &&& post.mode == pre.mode
}

/// The step from `pre` to `post` only bound variables: the heap keeps its
/// length, the trail is extended, every changed cell was unbound before,
/// is bound now, and stands on the new part of the trail, and every new
/// trail entry names a cell that was unbound before.
pub open spec fn only_bindings(pre: Wam, post: Wam) -> bool {
    &&& post.hlen() == pre.hlen()
    &&& pre.trail_v().is_prefix_of(post.trail_v())
    &&& forall|a: int|
        0 <= a < pre.hlen() && #[trigger] post.heap_v()[a] != pre.heap_v()[a] ==> (pre.heap_v()[a]
            is Unbound) && !(post.heap_v()[a] is Unbound) && trailed_since(
            post.trail_v(),
            pre.trail_v().len() as int,
            a,
        )
    &&& forall|k: int|
        pre.trail_v().len() <= k < post.trail_v().len() ==> 0 <= #[trigger] post.trail_v()[k]
            < pre.hlen() && pre.heap_v()[post.trail_v()[k]] is Unbound
}

/// `only_bindings` composes.
pub proof fn lemma_only_bindings_trans(s1: Wam, s2: Wam, s3: Wam)
    requires
        only_bindings(s1, s2),
        only_bindings(s2, s3),
    ensures
        only_bindings(s1, s3),
{
    let t1 = s1.trail_v();
    let t2 = s2.trail_v();
    let t3 = s3.trail_v();
    assert(t1.is_prefix_of(t3)) by {
        assert(t1 =~= t3.subrange(0, t1.len() as int));
    }
    assert forall|a: int|
        0 <= a < s1.hlen() && #[trigger] s3.heap_v()[a] != s1.heap_v()[a] implies (s1.heap_v()[a]
        is Unbound) && !(s3.heap_v()[a] is Unbound) && trailed_since(
        t3,
        t1.len() as int,
        a,
    ) by {
        if s3.heap_v()[a] != s2.heap_v()[a] {
            lemma_trailed_widen(t3, t1.len() as int, t2.len() as int, a);
        } else {
            assert(s2.heap_v()[a] != s1.heap_v()[a]);
            let k = choose|k: int| t1.len() <= k < t2.len() && t2[k] == a;
            assert(t3[k] == a);
        }
    }
    assert forall|k: int|
        t1.len() <= k < t3.len() implies 0 <= #[trigger] t3[k] < s1.hlen() && s1.heap_v()[t3[k]]
        is Unbound by {
        if k < t2.len() {
            assert(t3[k] == t2[k]);
        } else {
            let x = t3[k];
            assert(0 <= x < s2.hlen() && s2.heap_v()[x] is Unbound);
            if s2.heap_v()[x] != s1.heap_v()[x] {
                assert(s1.heap_v()[x] is Unbound);
            }
        }
    }
}

/// Writing a binding into an unbound cell and trailing it preserves the
/// machine invariant.
pub proof fn lemma_bind_wf(pre: Wam, post: Wam, u: int, t: TermView)
    requires
        pre.wf(),
        0 <= u < pre.hlen(),
        pre.heap_v()[u] is Unbound,
        t is Ref || t is Constant,
        t matches TermView::Ref(v) ==> 0 <= v < pre.hlen() && v != u && !(pre.heap_v()[v] is Ref)
            && (v < u || pre.heap_v()[v] is Constant || pre.heap_v()[v] is Structure),
        post.heap_v() == pre.heap_v().update(u, t),
        post.trail_v() == pre.trail_v().push(u),
        unchanged_but_heap_trail(pre, post),
    ensures
        post.wf(),
{
    let h = pre.heap_v();
    let h2 = post.heap_v();
    let tr = pre.trail_v();
    let tr2 = post.trail_v();
    assert(h2.len() == h.len());
    // no trailed cell is unbound, so u is not on the trail
    assert forall|k: int| 0 <= k < tr.len() implies tr[k] != u by {
        assert(!(h[tr[k]] is Unbound));
    }
    assert forall|a: int| 0 <= a < h2.len() implies #[trigger] cell_wf(h2, a) by {
        assert(cell_wf(h, a));
        if a != u {
            if let TermView::Ref(b) = h[a] {
                if !(b < a) {
                    assert(h[b] is Constant || h[b] is Structure);
                    assert(b != u);
                    assert(h2[b] == h[b]);
                }
            }
        }
    }
    assert forall|k: int|
        0 <= k < tr2.len() implies 0 <= #[trigger] tr2[k] < post.hlen() && !(h2[tr2[k]]
        is Unbound) by {
        if k < tr.len() {
            assert(tr2[k] == tr[k]);
            assert(!(h[tr[k]] is Unbound));
        } else {
            assert(tr2[k] == u);
        }
    }
    assert forall|i: int| 0 <= i < post.choice_points@.len() implies cp_ok(
        #[trigger] post.choice_points@[i],
        h2,
        tr2,
    ) by {
        let cp = post.choice_points@[i];
        assert(cp_ok(cp, h, tr));
        let hs = cp.heap_size as int;
        let tl = cp.trail_len as int;
        assert forall|k: int| 0 <= k < tl implies 0 <= #[trigger] tr2[k] < hs by {
            assert(tr2[k] == tr[k]);
        }
        assert forall|a: int|
            0 <= a < hs && !trailed_since(tr2, tl, a) implies #[trigger] cell_stable(
            h2,
            tr2,
            tl,
            hs,
            a,
        ) by {
            lemma_trailed_push(tr, tl, u, a);
            assert(!trailed_since(tr, tl, a) && a != u);
            assert(cell_stable(h, tr, tl, hs, a));
            if let TermView::Ref(b) = h[a] {
                if !(b < a) {
                    assert(b != u);
                    assert(h2[b] == h[b]);
                    lemma_trailed_push(tr, tl, u, b);
                }
            }
        }
    }
    match post.mode {
        BuildMode::Reading(s, _) => {
            assert(h[s as int] is Structure);
            assert(s as int != u);
        },
        _ => {},
    }
}

/// Everything except the heap is unchanged.
pub open spec fn unchanged_but_heap(pre: Wam, post: Wam) -> bool {
    &&& post.registers == pre.registers
    &&& post.trail == pre.trail
    &&& post.frames == pre.frames
    &&& post.current_frame == pre.current_frame
    &&& post.choice_points == pre.choice_points
    &&& post.program == pre.program
    &&& post.program_counter == pre.program_counter
    &&& post.continuation == pre.continuation
    &&& post.symbols == pre.symbols
    &&& post.mode == pre.mode
}

impl Wam {
    /// Follow `Ref` pointers from `a` to the terminal cell.
    fn deref_addr(&self, a: usize) -> (d: usize)
        requires
            self.wf(),
            (a as int) < self.hlen(),
        ensures
            d as int == deref_spec(self.heap_v(), a as int),
            (d as int) < self.hlen(),
            !(self.heap_v()[d as int] is Ref),
        decreases a,
    {
        proof {
            lemma_deref_terminal(self.heap_v(), a as int);
            assert(cell_wf(self.heap_v(), a as int));
        }
        match &self.heap[a] {
            Term::Ref(b) => {
                if *b < a {
                    self.deref_addr(*b)
                } else {
                    *b
                }
            },
            _ => a,
        }
    }

    /// Dereference: the terminal address reached from `addr`, together with
    /// a copy of the cell found there.
    pub fn dereference(&self, addr: usize) -> (r: (usize, Term))
        requires
            self.wf(),
            (addr as int) < self.hlen(),
        ensures
            r.0 as int == deref_spec(self.heap_v(), addr as int),
            (r.0 as int) < self.hlen(),
            r.1@ == self.heap_v()[r.0 as int],
            !(r.1@ is Ref),
    {
        let d = self.deref_addr(addr);
        (d, self.heap[d].clone())
    }

    /// Bind the unbound cell `u` to point at the terminal cell `v`, and
    /// trail `u`.
    fn bind_to(&mut self, u: usize, v: usize)
        requires
            old(self).wf(),
            (u as int) < old(self).hlen(),
            (v as int) < old(self).hlen(),
            old(self).heap_v()[u as int] is Unbound,
            !(old(self).heap_v()[v as int] is Ref),
            u != v,
            v < u || !(old(self).heap_v()[v as int] is Unbound),
        ensures
            final(self).wf(),
            final(self).heap_v() == old(self).heap_v().update(
                u as int,
                TermView::Ref(v as int),
            ),
            final(self).trail_v() == old(self).trail_v().push(u as int),
            final(self).hlen() == old(self).hlen(),
            unchanged_but_heap_trail(*old(self), *final(self)),
    {
        let ghost pre = *self;
        self.heap[u] = Term::Ref(v);
        self.trail.push(u);
        proof {
            assert(self.heap_v() =~= pre.heap_v().update(u as int, TermView::Ref(v as int)));
            assert(self.trail_v() =~= pre.trail_v().push(u as int));
            lemma_bind_wf(pre, *self, u as int, TermView::Ref(v as int));
        }
    }

    /// Bind the unbound cell `u` to an inline constant, and trail `u`.
    fn bind_const(&mut self, u: usize, name: String)
        requires
            old(self).wf(),
            (u as int) < old(self).hlen(),
            old(self).heap_v()[u as int] is Unbound,
        ensures
            final(self).wf(),
            final(self).heap_v() == old(self).heap_v().update(
                u as int,
                TermView::Constant(name@),
            ),
            final(self).trail_v() == old(self).trail_v().push(u as int),
            final(self).hlen() == old(self).hlen(),
            unchanged_but_heap_trail(*old(self), *final(self)),
    {
        let ghost pre = *self;
        let ghost nv = name@;
        self.heap[u] = Term::Constant(name);
        self.trail.push(u);
        proof {
            assert(self.heap_v() =~= pre.heap_v().update(u as int, TermView::Constant(nv)));
            assert(self.trail_v() =~= pre.trail_v().push(u as int));
            lemma_bind_wf(pre, *self, u as int, TermView::Constant(nv));
        }
    }
}

/// The one-level outcomes of unifying heap addresses `x` and `y`, per the
/// shapes of the two dereferenced cells: same cell succeeds and changes
/// nothing; one unbound side is bound to the other (the younger of two
/// unbound cells is bound to the older) and trailed; two constants succeed
/// exactly when their names are equal; a constant against a structure fails;
/// two structures whose functor or arity differ fail without touching the
/// arguments. All failures and constant comparisons leave the machine
/// unchanged.
pub open spec fn unify_shallow_spec(
    h: Seq<TermView>,
    tr: Seq<int>,
    h2: Seq<TermView>,
    tr2: Seq<int>,
    x: int,
    y: int,
    r: bool,
) -> bool {
    let d1 = deref_spec(h, x);
    let d2 = deref_spec(h, y);
    &&& d1 == d2 ==> r && h2 == h && tr2 == tr
    &&& d1 != d2 && h[d1] is Unbound && h[d2] is Unbound ==> r && (if d1 < d2 {
        h2 == h.update(d2, TermView::Ref(d1)) && tr2 == tr.push(d2)
    } else {
        h2 == h.update(d1, TermView::Ref(d2)) && tr2 == tr.push(d1)
    })
    &&& d1 != d2 && h[d1] is Unbound && !(h[d2] is Unbound) ==> r && h2 == h.update(
        d1,
        TermView::Ref(d2),
    ) && tr2 == tr.push(d1)
    &&& d1 != d2 && !(h[d1] is Unbound) && h[d2] is Unbound ==> r && h2 == h.update(
        d2,
        TermView::Ref(d1),
    ) && tr2 == tr.push(d2)
    &&& h[d1] matches TermView::Constant(c1) ==> h[d2] matches TermView::Constant(c2) ==> d1
        != d2 ==> ((r <==> c1 == c2) && h2 == h && tr2 == tr)
    &&& d1 != d2 && h[d1] is Constant && h[d2] is Structure ==> !r && h2 == h
        && tr2 == tr
    &&& d1 != d2 && h[d1] is Structure && h[d2] is Constant ==> !r && h2 == h
        && tr2 == tr
    &&& h[d1] matches TermView::Structure(f1, a1) ==> h[d2] matches TermView::Structure(f2, a2)
        ==> (d1 != d2 && !(f1 == f2 && a1.len() == a2.len())) ==> (!r && h2 == h
        && tr2 == tr)
}

/// The one-level outcomes of unifying the cell reached from address `x`
/// against an inline constant named `c`.
pub open spec fn ref_const_spec(
    h: Seq<TermView>,
    tr: Seq<int>,
    h2: Seq<TermView>,
    tr2: Seq<int>,
    x: int,
    c: Seq<char>,
    r: bool,
) -> bool {
    let d = deref_spec(h, x);
    &&& h[d] is Unbound ==> r && h2 == h.update(d, TermView::Constant(c))
        && tr2 == tr.push(d)
    &&& h[d] matches TermView::Constant(c2) ==> ((r <==> c == c2) && h2 == h
        && tr2 == tr)
    &&& h[d] is Structure ==> !r && h2 == h && tr2 == tr
}

/// The one-level outcomes of unifying two register terms, dispatching on
/// their shapes: heap references unify their cells, an inline constant
/// against a reference binds or compares at the dereferenced cell, two
/// inline constants compare names.
pub open spec fn attempt_terms(
    h: Seq<TermView>,
    tr: Seq<int>,
    h2: Seq<TermView>,
    tr2: Seq<int>,
    v1: TermView,
    v2: TermView,
    r: bool,
) -> bool {
    &&& v1 matches TermView::Constant(c1) ==> v2 matches TermView::Constant(c2) ==> ((r <==> c1
        == c2) && h2 == h && tr2 == tr)
    &&& v1 matches TermView::Ref(x) ==> v2 matches TermView::Ref(y) ==> unify_shallow_spec(
        h,
        tr,
        h2,
        tr2,
        x,
        y,
        r,
    )
    &&& v1 matches TermView::Ref(x) ==> v2 matches TermView::Constant(c) ==> ref_const_spec(
        h,
        tr,
        h2,
        tr2,
        x,
        c,
        r,
    )
    &&& v1 matches TermView::Constant(c) ==> v2 matches TermView::Ref(x) ==> ref_const_spec(
        h,
        tr,
        h2,
        tr2,
        x,
        c,
        r,
    )
}

/// What one level of unification decides about two register terms:
/// `Some(true)` when it must succeed without looking at structure
/// arguments, `Some(false)` when it must fail, `None` when the verdict
/// depends on unifying the arguments of two matching structures.
pub open spec fn shallow_verdict(h: Seq<TermView>, v1: TermView, v2: TermView) -> Option<bool> {
    match (v1, v2) {
        (TermView::Constant(c1), TermView::Constant(c2)) => Some(c1 == c2),
        (TermView::Ref(x), TermView::Ref(y)) => {
            let d1 = deref_spec(h, x);
            let d2 = deref_spec(h, y);
            if d1 == d2 {
                Some(true)
            } else if h[d1] is Unbound || h[d2] is Unbound {
                Some(true)
            } else {
                match (h[d1], h[d2]) {
                    (TermView::Constant(c1), TermView::Constant(c2)) => Some(c1 == c2),
                    (TermView::Constant(_), TermView::Structure(_, _)) => Some(false),
                    (TermView::Structure(_, _), TermView::Constant(_)) => Some(false),
                    (TermView::Structure(f1, a1), TermView::Structure(f2, a2)) => if f1 == f2
                        && a1.len() == a2.len() {
                        None
                    } else {
                        Some(false)
                    },
                    _ => None,
                }
            }
        },
        (TermView::Ref(x), TermView::Constant(c)) => ref_const_verdict(h, x, c),
        (TermView::Constant(c), TermView::Ref(x)) => ref_const_verdict(h, x, c),
        _ => None,
    }
}

/// The verdict of unifying the cell reached from `x` against an inline
/// constant: always decided one level deep.
pub open spec fn ref_const_verdict(h: Seq<TermView>, x: int, c: Seq<char>) -> Option<bool> {
    let d = deref_spec(h, x);
    match h[d] {
        TermView::Unbound => Some(true),
        TermView::Constant(c2) => Some(c == c2),
        TermView::Structure(_, _) => Some(false),
        TermView::Ref(_) => None,
    }
}

/// Everything except heap, trail, program counter and structure mode is
/// unchanged.
pub open spec fn frame_rest(pre: Wam, post: Wam) -> bool {
    &&& post.registers == pre.registers
    &&& post.frames == pre.frames
    &&& post.current_frame == pre.current_frame
    &&& post.choice_points == pre.choice_points
    &&& post.program == pre.program
    &&& post.symbols == pre.symbols
    &&& post.continuation == pre.continuation
}

/// The full observable of one unifying instruction over register terms `v1`
/// and `v2`. Exactly one of three things happens: the attempt succeeds and
/// the machine steps on to `pc_next` and `mode_next` holding exactly the
/// attempt's bindings; the attempt fails with no choice point recorded and
/// the machine halts in `UnificationFailure`, counter and mode untouched,
/// holding the bindings made before the failing pair; or the attempt fails
/// into a recorded choice point and the machine is restored from it
/// exactly, as `restored_from` states.
pub open spec fn unify_outcome(
    pre: Wam,
    post: Wam,
    v1: TermView,
    v2: TermView,
    pc_next: int,
    mode_next: BuildMode,
    r: Outcome,
) -> bool {
    ||| (r == Outcome::Continuing && post.program_counter as int == pc_next && post.mode
        == mode_next && frame_rest(pre, post) && only_bindings(pre, post) && attempt_terms(
        pre.heap_v(),
        pre.trail_v(),
        post.heap_v(),
        post.trail_v(),
        v1,
        v2,
        true,
    ))
    ||| (pre.choice_points@.len() == 0 && r == Outcome::Halted(
        Halted::Failure(WamError::UnificationFailure),
    ) && post.program_counter == pre.program_counter && post.mode == pre.mode && frame_rest(
        pre,
        post,
    ) && only_bindings(pre, post) && attempt_terms(
        pre.heap_v(),
        pre.trail_v(),
        post.heap_v(),
        post.trail_v(),
        v1,
        v2,
        false,
    ))
    ||| (pre.choice_points@.len() > 0 && shallow_verdict(pre.heap_v(), v1, v2) != Some(true) && r
        == Outcome::Continuing && restored_from(pre, post))
}

/// A machine is related to itself by `only_bindings`.
pub proof fn lemma_only_bindings_refl(s: Wam)
    ensures
        only_bindings(s, s),
{
    assert(s.trail_v() =~= s.trail_v().subrange(0, s.trail_v().len() as int));
}

/// A single bind step satisfies `only_bindings`.
pub proof fn lemma_only_bindings_bind(pre: Wam, post: Wam, u: int, t: TermView)
    requires
        0 <= u < pre.hlen(),
        pre.heap_v()[u] is Unbound,
        !(t is Unbound),
        post.heap_v() == pre.heap_v().update(u, t),
        post.trail_v() == pre.trail_v().push(u),
        post.hlen() == pre.hlen(),
    ensures
        only_bindings(pre, post),
{
    let tr = pre.trail_v();
    let tr2 = post.trail_v();
    assert(tr.is_prefix_of(tr2)) by {
        assert(tr =~= tr2.subrange(0, tr.len() as int));
    }
    assert(tr2[tr.len() as int] == u);
    assert forall|a: int|
        0 <= a < pre.hlen() && #[trigger] post.heap_v()[a] != pre.heap_v()[a] implies (
        pre.heap_v()[a] is Unbound) && !(post.heap_v()[a] is Unbound) && trailed_since(
        tr2,
        tr.len() as int,
        a,
    ) by {
        assert(a == u);
    }
    assert forall|k: int|
        tr.len() <= k < tr2.len() implies 0 <= #[trigger] tr2[k] < pre.hlen() && pre.heap_v()[
            tr2[k]
        ] is Unbound by {
        assert(tr2[k] == u);
    }
}

impl Wam {
    /// Unify the terms at heap addresses `x` and `y` one level at a time,
    /// recursing into the arguments of matching structures left to right
    /// under a depth budget `fuel`: success means the two terms are equal
    /// under the resulting bindings, to depth `fuel`.
    fn unify_rec(&mut self, x: usize, y: usize, fuel: usize) -> (r: bool)
        requires
            old(self).wf(),
            (x as int) < old(self).hlen(),
            (y as int) < old(self).hlen(),
        ensures
            final(self).wf(),
            only_bindings(*old(self), *final(self)),
            unchanged_but_heap_trail(*old(self), *final(self)),
            unify_shallow_spec(
                old(self).heap_v(),
                old(self).trail_v(),
                final(self).heap_v(),
                final(self).trail_v(),
                x as int,
                y as int,
                r,
            ),
            r ==> unified(final(self).heap_v(), x as int, y as int, fuel as nat),
        decreases fuel,
    {
        proof {
            lemma_only_bindings_refl(*self);
        }
        let ghost h0 = self.heap_v();
        let d1 = self.deref_addr(x);
        let d2 = self.deref_addr(y);
        if d1 == d2 {
            proof {
                assert(unified(self.heap_v(), x as int, y as int, fuel as nat));
            }
            return true;
        }
        let c1 = self.heap[d1].clone();
        let c2 = self.heap[d2].clone();
        proof {
            assert(c1@ == h0[d1 as int]);
            assert(c2@ == h0[d2 as int]);
        }
        match (c1, c2) {
            (Term::Unbound, Term::Unbound) => {
                let u: usize = if d1 < d2 {
                    d2
                } else {
                    d1
                };
                let v: usize = if d1 < d2 {
                    d1
                } else {
                    d2
                };
                self.bind_to(u, v);
                proof {
                    lemma_only_bindings_bind(*old(self), *self, u as int, TermView::Ref(v as int));
                    lemma_deref_after_bind(h0, u as int, v as int, x as int);
                    lemma_deref_after_bind(h0, u as int, v as int, y as int);
                    assert(unified(self.heap_v(), x as int, y as int, fuel as nat));
                }
                true
            },
            (Term::Unbound, _) => {
                self.bind_to(d1, d2);
                proof {
                    lemma_only_bindings_bind(
                        *old(self),
                        *self,
                        d1 as int,
                        TermView::Ref(d2 as int),
                    );
                    lemma_deref_after_bind(h0, d1 as int, d2 as int, x as int);
                    lemma_deref_after_bind(h0, d1 as int, d2 as int, y as int);
                    assert(unified(self.heap_v(), x as int, y as int, fuel as nat));
                }
                true
            },
            (_, Term::Unbound) => {
                self.bind_to(d2, d1);
                proof {
                    lemma_only_bindings_bind(
                        *old(self),
                        *self,
                        d2 as int,
                        TermView::Ref(d1 as int),
                    );
                    lemma_deref_after_bind(h0, d2 as int, d1 as int, x as int);
                    lemma_deref_after_bind(h0, d2 as int, d1 as int, y as int);
                    assert(unified(self.heap_v(), x as int, y as int, fuel as nat));
                }
                true
            },
            (Term::Constant(s1), Term::Constant(s2)) => {
                let eq = s1 == s2;
                proof {
                    if eq {
                        assert(unified(self.heap_v(), x as int, y as int, fuel as nat));
                    }
                }
                eq
            },
            (Term::Structure(f1, args1), Term::Structure(f2, args2)) => {
                if !(f1 == f2) || args1.len() != args2.len() {
                    false
                } else if fuel == 0 {
                    false
                } else {
                    proof {
                        assert(cell_wf(h0, d1 as int));
                        assert(cell_wf(h0, d2 as int));
                        assert(h0 == old(self).heap_v());
                        assert(h0[d1 as int] matches TermView::Structure(ff1, aa1) && aa1
                            == args1@.map_values(|u: usize| u as int));
                        assert(h0[d2 as int] matches TermView::Structure(ff2, aa2) && aa2
                            == args2@.map_values(|u: usize| u as int));
                        assert forall|i: int| 0 <= i < args1@.len() implies 0 <= ((
                        #[trigger] args1@[i]) as int) < old(self).hlen() && 0 <= (args2@[i] as int)
                            < old(self).hlen() by {
                            assert(args1@.map_values(|u: usize| u as int)[i] == args1@[i] as int);
                            assert(args2@.map_values(|u: usize| u as int)[i] == args2@[i] as int);
                        }
                    }
                    let n = args1.len();
                    let mut j: usize = 0;
                    while j < n
                        invariant
                            self.wf(),
                            only_bindings(*old(self), *self),
                            unchanged_but_heap_trail(*old(self), *self),
                            j <= n,
                            fuel >= 1,
                            n == args1@.len(),
                            n == args2@.len(),
                            (d1 as int) < old(self).hlen(),
                            (d2 as int) < old(self).hlen(),
                            d1 != d2,
                            (x as int) < old(self).hlen(),
                            (y as int) < old(self).hlen(),
                            d1 as int == deref_spec(old(self).heap_v(), x as int),
                            d2 as int == deref_spec(old(self).heap_v(), y as int),
                            old(self).wf(),
                            old(self).heap_v()[d1 as int] is Structure,
                            old(self).heap_v()[d2 as int] is Structure,
                            struct_functor(old(self).heap_v()[d1 as int]) == struct_functor(
                                old(self).heap_v()[d2 as int],
                            ),
                            struct_args(old(self).heap_v()[d1 as int]) == args1@.map_values(
                                |u: usize| u as int,
                            ),
                            struct_args(old(self).heap_v()[d2 as int]) == args2@.map_values(
                                |u: usize| u as int,
                            ),
                            forall|i: int|
                                0 <= i < n ==> 0 <= ((#[trigger] args1@[i]) as int) < old(
                                    self,
                                ).hlen() && 0 <= (args2@[i] as int) < old(self).hlen(),
                            forall|i: int|
                                0 <= i < j ==> unified(
                                    self.heap_v(),
                                    (#[trigger] args1@[i]) as int,
                                    args2@[i] as int,
                                    (fuel - 1) as nat,
                                ),
                        decreases n - j,
                    {
                        let ghost snap = *self;
                        let ok = self.unify_rec(args1[j], args2[j], fuel - 1);
                        proof {
                            lemma_only_bindings_trans(*old(self), snap, *self);
                        }
                        if !ok {
                            return false;
                        }
                        proof {
                            assert(bound_only(snap.heap_v(), self.heap_v()));
                            assert forall|i: int| 0 <= i < j + 1 implies unified(
                                self.heap_v(),
                                (#[trigger] args1@[i]) as int,
                                args2@[i] as int,
                                (fuel - 1) as nat,
                            ) by {
                                if i < j {
                                    lemma_unified_stable(
                                        snap.heap_v(),
                                        self.heap_v(),
                                        args1@[i] as int,
                                        args2@[i] as int,
                                        (fuel - 1) as nat,
                                    );
                                }
                            }
                        }
                        j = j + 1;
                    }
                    proof {
                        let h2 = self.heap_v();
                        let hp = old(self).heap_v();
                        assert(bound_only(hp, h2));
                        assert(h2[d1 as int] == hp[d1 as int]);
                        assert(h2[d2 as int] == hp[d2 as int]);
                        lemma_deref_extend(hp, h2, x as int);
                        lemma_deref_extend(hp, h2, y as int);
                        assert(deref_spec(h2, x as int) == d1 as int);
                        assert(deref_spec(h2, y as int) == d2 as int);
                        assert forall|i: int|
                            0 <= i < struct_args(h2[d1 as int]).len() implies unified(
                            h2,
                            #[trigger] struct_args(h2[d1 as int])[i],
                            struct_args(h2[d2 as int])[i],
                            (fuel - 1) as nat,
                        ) by {
                            assert(struct_args(h2[d1 as int])[i] == args1@[i] as int);
                            assert(struct_args(h2[d2 as int])[i] == args2@[i] as int);
                            assert(unified(h2, args1@[i] as int, args2@[i] as int, (fuel
                                - 1) as nat));
                        }
                        assert(unified_struct(h2, d1 as int, d2 as int, (fuel - 1) as nat));
                        assert(unified(h2, x as int, y as int, fuel as nat));
                    }
                    true
                }
            },
            _ => false,
        }
    }

    /// Unify the terms at heap addresses `a` and `b`, binding unbound
    /// variables and trailing every binding. Success means the two terms
    /// are equal under the resulting bindings (`unified`); failure leaves
    /// bindings made before the failing pair in place; undoing them falls
    /// to the machine, through the trail and choice points.
    /// Argument lists are matched left to right under a depth budget; a
    /// unification whose nesting exhausts it (possible only for terms made
    /// cyclic by earlier bindings, as no occurs-check is performed) reports
    /// failure.
    pub fn unify(&mut self, a: usize, b: usize) -> (r: bool)
        requires
            old(self).wf(),
            (a as int) < old(self).hlen(),
            (b as int) < old(self).hlen(),
        ensures
            final(self).wf(),
            only_bindings(*old(self), *final(self)),
            unchanged_but_heap_trail(*old(self), *final(self)),
            unify_shallow_spec(
                old(self).heap_v(),
                old(self).trail_v(),
                final(self).heap_v(),
                final(self).trail_v(),
                a as int,
                b as int,
                r,
            ),
            r ==> unified(final(self).heap_v(), a as int, b as int, usize::MAX as nat),
    {
        self.unify_rec(a, b, usize::MAX)
    }

    /// Unify two register terms: two heap references unify their cells; an
    /// inline constant against a reference binds or compares at the
    /// dereferenced cell; two inline constants compare names.
    fn unify_terms(&mut self, t1: &Term, t2: &Term) -> (r: bool)
        requires
            old(self).wf(),
            reg_term_ok(t1@, old(self).hlen()),
            reg_term_ok(t2@, old(self).hlen()),
        ensures
            final(self).wf(),
            only_bindings(*old(self), *final(self)),
            unchanged_but_heap_trail(*old(self), *final(self)),
            attempt_terms(
                old(self).heap_v(),
                old(self).trail_v(),
                final(self).heap_v(),
                final(self).trail_v(),
                t1@,
                t2@,
                r,
            ),
            !r ==> shallow_verdict(old(self).heap_v(), t1@, t2@) != Some(true),
    {
        proof {
            lemma_only_bindings_refl(*self);
        }
        match (t1, t2) {
            (Term::Ref(x), Term::Ref(y)) => self.unify(*x, *y),
            (Term::Constant(c1), Term::Constant(c2)) => *c1 == *c2,
            (Term::Ref(x), Term::Constant(c)) => self.unify_ref_const(*x, c),
            (Term::Constant(c), Term::Ref(x)) => self.unify_ref_const(*x, c),
            _ => false,
        }
    }

    /// Unify the cell reached from `x` against an inline constant.
    fn unify_ref_const(&mut self, x: usize, c: &String) -> (r: bool)
        requires
            old(self).wf(),
            (x as int) < old(self).hlen(),
        ensures
            final(self).wf(),
            only_bindings(*old(self), *final(self)),
            unchanged_but_heap_trail(*old(self), *final(self)),
            ref_const_spec(
                old(self).heap_v(),
                old(self).trail_v(),
                final(self).heap_v(),
                final(self).trail_v(),
                x as int,
                c@,
                r,
            ),
    {
        proof {
            lemma_only_bindings_refl(*self);
        }
        let d = self.deref_addr(x);
        let cell = self.heap[d].clone();
        proof {
            assert(cell@ == self.heap_v()[d as int]);
        }
        match cell {
            Term::Unbound => {
                self.bind_const(d, c.clone());
                proof {
                    lemma_only_bindings_bind(
                        *old(self),
                        *self,
                        d as int,
                        TermView::Constant(c@),
                    );
                }
                true
            },
            Term::Constant(c2) => *c == c2,
            _ => false,
        }
    }

    /// Unify two register terms as one instruction step: on success the
    /// counter advances; on failure the machine backtracks or halts.
    fn get_value_step(&mut self, v1: &Term, v2: &Term) -> (r: Outcome)
        requires
            old(self).wf(),
            reg_term_ok(v1@, old(self).hlen()),
            reg_term_ok(v2@, old(self).hlen()),
            (old(self).program_counter as int) < old(self).program@.len(),
            (old(self).program_counter as int) + 1 <= usize::MAX,
        ensures
            final(self).wf(),
            unify_outcome(
                *old(self),
                *final(self),
                v1@,
                v2@,
                old(self).program_counter as int + 1,
                old(self).mode,
                r,
            ),
    {
        let ghost pre = *self;
        if self.unify_terms(v1, v2) {
            self.program_counter = self.program_counter + 1;
            Outcome::Continuing
        } else {
            let ghost mid = *self;
            let o = self.fail_step();
            proof {
                if pre.choice_points@.len() > 0 {
                    lemma_restored_absorbs_bindings(pre, mid, *self);
                }
            }
            o
        }
    }

    /// Unify a register term against the next argument cell of the
    /// structure being read, as one instruction step: on success the read
    /// cursor and the counter advance; on failure the machine backtracks or
    /// halts.
    fn unify_value_step(&mut self, v: &Term, arg: usize, s: usize, k: usize) -> (r: Outcome)
        requires
            old(self).wf(),
            reg_term_ok(v@, old(self).hlen()),
            (arg as int) < old(self).hlen(),
            old(self).mode == BuildMode::Reading(s, k),
            old(self).heap_v()[s as int] matches TermView::Structure(_, ar) && (k as int)
                < ar.len() && ar[k as int] == arg as int,
            (old(self).program_counter as int) < old(self).program@.len(),
            (old(self).program_counter as int) + 1 <= usize::MAX,
            (k as int) + 1 <= usize::MAX,
        ensures
            final(self).wf(),
            unify_outcome(
                *old(self),
                *final(self),
                v@,
                TermView::Ref(arg as int),
                old(self).program_counter as int + 1,
                BuildMode::Reading(s, (k + 1) as usize),
                r,
            ),
    {
        let ghost pre = *self;
        if self.unify_terms(v, &Term::Ref(arg)) {
            proof {
                assert(self.heap_v()[s as int] == pre.heap_v()[s as int]);
            }
            self.mode = BuildMode::Reading(s, k + 1);
            self.program_counter = self.program_counter + 1;
            Outcome::Continuing
        } else {
            let ghost mid = *self;
            let o = self.fail_step();
            proof {
                if pre.choice_points@.len() > 0 {
                    lemma_restored_absorbs_bindings(pre, mid, *self);
                }
            }
            o
        }
    }
}

/// The relation between the machine before and after backtracking to its
/// newest choice point: the heap is truncated to the recorded size with
/// every binding trailed since then reset to unbound, the trail is truncated
/// to the recorded length, registers, environment and continuation are
/// restored from the snapshot, and control resumes at the saved alternative.
pub open spec fn restored_from(pre: Wam, post: Wam) -> bool {
    let cp = pre.choice_points@.last();
    &&& post.hlen() == cp.heap_size as int
    &&& post.heap_v() == Seq::new(
        cp.heap_size as nat,
        |a: int|
            if trailed_since(pre.trail_v(), cp.trail_len as int, a) {
                TermView::Unbound
            } else {
                pre.heap_v()[a]
            },
    )
    &&& post.trail_v() == pre.trail_v().subrange(0, cp.trail_len as int)
    &&& post.choice_points@ == pre.choice_points@.drop_last()
    &&& post.program_counter == cp.alternative
    &&& post.registers == cp.saved_registers
    &&& post.frames == cp.saved_frames
    &&& post.current_frame == cp.saved_frame
    &&& post.continuation == cp.saved_continuation
    &&& post.mode is Idle
    &&& post.program == pre.program
    &&& post.symbols == pre.symbols
}

/// Backtracking undoes the bindings of the step that failed along with
/// everything since the choice point: if `mid` differs from `pre` only by
/// bindings, restoring `mid` from its newest choice point lands in the very
/// state that restoring `pre` describes.
pub proof fn lemma_restored_absorbs_bindings(pre: Wam, mid: Wam, post: Wam)
    requires
        pre.wf(),
        pre.choice_points@.len() > 0,
        only_bindings(pre, mid),
        mid.choice_points == pre.choice_points,
        mid.program == pre.program,
        mid.symbols == pre.symbols,
        restored_from(mid, post),
    ensures
        restored_from(pre, post),
{
    let cp = pre.choice_points@.last();
    assert(mid.choice_points@.last() == cp);
    assert(cp_ok(cp, pre.heap_v(), pre.trail_v()));
    let hs = cp.heap_size as int;
    let tl = cp.trail_len as int;
    let trp = pre.trail_v();
    let trm = mid.trail_v();
    assert(tl <= trp.len());
    assert forall|k: int| 0 <= k < trp.len() implies trm[k] == trp[k] by {
        assert(trp =~= trm.subrange(0, trp.len() as int));
    }
    assert(post.trail_v() == trm.subrange(0, tl));
    assert(post.trail_v() =~= trp.subrange(0, tl));
    assert forall|a: int|
        0 <= a < hs implies (if trailed_since(trm, tl, a) {
        TermView::Unbound
    } else {
        mid.heap_v()[a]
    }) == (if trailed_since(trp, tl, a) {
        TermView::Unbound
    } else {
        pre.heap_v()[a]
    }) by {
        if trailed_since(trp, tl, a) {
            let k = choose|k: int| tl <= k < trp.len() && trp[k] == a;
            assert(trm[k] == a);
            assert(trailed_since(trm, tl, a));
        } else if trailed_since(trm, tl, a) {
            let k = choose|k: int| tl <= k < trm.len() && trm[k] == a;
            if k < trp.len() {
                assert(trp[k] == a);
                assert(false);
            } else {
                assert(pre.heap_v()[a] is Unbound);
            }
        } else {
            if mid.heap_v()[a] != pre.heap_v()[a] {
                lemma_trailed_widen(trm, tl, trp.len() as int, a);
                assert(false);
            }
        }
    }
    assert(Seq::new(
        cp.heap_size as nat,
        |a: int|
            if trailed_since(trp, tl, a) {
                TermView::Unbound
            } else {
                pre.heap_v()[a]
            },
    ) =~= Seq::new(
        cp.heap_size as nat,
        |a: int|
            if trailed_since(trm, tl, a) {
                TermView::Unbound
            } else {
                mid.heap_v()[a]
            },
    ));
}

/// Backtracking to a well-formed choice point yields a well-formed machine.
pub proof fn lemma_backtrack_wf(pre: Wam, post: Wam)
    requires
        pre.wf(),
        pre.choice_points@.len() > 0,
        restored_from(pre, post),
        post.registers@.len() == REG_COUNT,
    ensures
        post.wf(),
{
    let cp = pre.choice_points@.last();
    let hs = cp.heap_size as int;
    let tl = cp.trail_len as int;
    let h = pre.heap_v();
    let tr = pre.trail_v();
    let h2 = post.heap_v();
    let tr2 = post.trail_v();
    assert(cp_ok(cp, h, tr));
    assert(h2.len() == hs);
    assert(tr2.len() == tl);
    // the surviving heap is well formed
    assert forall|a: int| 0 <= a < h2.len() implies #[trigger] cell_wf(h2, a) by {
        if !trailed_since(tr, tl, a) {
            assert(h2[a] == h[a]);
            assert(cell_stable(h, tr, tl, hs, a));
            assert(cell_wf(h, a));
            if let TermView::Ref(b) = h[a] {
                if !(b < a) {
                    assert(h2[b] == h[b]);
                }
            }
        }
    }
    // the surviving trail entries still name bound cells, once each
    assert forall|k: int|
        0 <= k < tr2.len() implies 0 <= #[trigger] tr2[k] < hs && !(h2[tr2[k]] is Unbound) by {
        assert(tr2[k] == tr[k]);
        let t = tr[k];
        assert(!(h[t] is Unbound));
        if trailed_since(tr, tl, t) {
            let k2 = choose|k2: int| tl <= k2 < tr.len() && tr[k2] == t;
            assert(tr[k] == tr[k2] && k < tl <= k2);
            assert(false);
        }
        assert(h2[t] == h[t]);
    }
    // the remaining choice points are still well formed
    assert forall|i: int| 0 <= i < post.choice_points@.len() implies cp_ok(
        #[trigger] post.choice_points@[i],
        h2,
        tr2,
    ) by {
        let cpi = post.choice_points@[i];
        assert(cpi == pre.choice_points@[i]);
        assert(cp_ok(cpi, h, tr));
        let hsi = cpi.heap_size as int;
        let tli = cpi.trail_len as int;
        assert(hsi <= hs && tli <= tl);
        assert forall|k: int| 0 <= k < tli implies 0 <= #[trigger] tr2[k] < hsi by {
            assert(tr2[k] == tr[k]);
        }
        assert forall|a: int|
            0 <= a < hsi && !trailed_since(tr2, tli, a) implies #[trigger] cell_stable(
            h2,
            tr2,
            tli,
            hsi,
            a,
        ) by {
            lemma_trailed_split(tr, tli, tl, a);
            if trailed_since(tr, tl, a) {
                assert(h2[a] is Unbound);
            } else {
                assert(!trailed_since(tr, tli, a));
                assert(cell_stable(h, tr, tli, hsi, a));
                assert(h2[a] == h[a]);
                if let TermView::Ref(b) = h[a] {
                    if !(b < a) {
                        assert((h[b] is Constant || h[b] is Structure) && !trailed_since(
                            tr,
                            tli,
                            b,
                        ));
                        if trailed_since(tr, tl, b) {
                            lemma_trailed_widen(tr, tli, tl, b);
                        }
                        assert(h2[b] == h[b]);
                        lemma_trailed_split(tr, tli, tl, b);
                    }
                }
            }
        }
    }
}

impl Wam {
    /// Record a choice point: snapshot the current heap size, trail length,
    /// registers, environment and continuation, with the address of the
    /// alternative to resume at should execution fail back to it.
    pub fn record_choice_point(&mut self, alternative: usize)
        requires
            old(self).wf(),
        ensures
            final(self).wf(),
            final(self).choice_points@.len() == old(self).choice_points@.len() + 1,
            ({
                let cp = final(self).choice_points@.last();
                &&& cp.heap_size as int == old(self).hlen()
                &&& cp.trail_len as int == old(self).trail_v().len()
                &&& cp.alternative == alternative
                &&& cp.saved_frame == old(self).current_frame
                &&& cp.saved_continuation == old(self).continuation
                &&& cp.saved_registers@.len() == old(self).registers@.len()
                &&& forall|j: int|
                    0 <= j < old(self).registers@.len() ==> #[trigger] cp.saved_registers@[j]@
                        == old(self).registers@[j]@
                &&& cp.saved_frames@.len() == old(self).frames@.len()
                &&& forall|i: int|
                    0 <= i < old(self).frames@.len() ==> {
                        &&& (#[trigger] cp.saved_frames@[i]).slots@.len()
                            == old(self).frames@[i].slots@.len()
                        &&& forall|j: int|
                            0 <= j < old(self).frames@[i].slots@.len()
                                ==> #[trigger] cp.saved_frames@[i].slots@[j]@
                                == old(self).frames@[i].slots@[j]@
                        &&& cp.saved_frames@[i].continuation == old(self).frames@[i].continuation
                        &&& cp.saved_frames@[i].previous == old(self).frames@[i].previous
                    }
            }),
            final(self).choice_points@.drop_last() == old(self).choice_points@,
            final(self).heap == old(self).heap,
            final(self).trail == old(self).trail,
            final(self).registers == old(self).registers,
            final(self).frames == old(self).frames,
            final(self).current_frame == old(self).current_frame,
            final(self).program == old(self).program,
            final(self).program_counter == old(self).program_counter,
            final(self).continuation == old(self).continuation,
            final(self).symbols == old(self).symbols,
            final(self).mode == old(self).mode,
    {
        let ghost pre = *self;
        let saved_registers = copy_terms(&self.registers);
        let saved_frames = copy_frames(&self.frames);
        let cp = ChoicePoint {
            heap_size: self.heap.len(),
            trail_len: self.trail.len(),
            alternative,
            saved_registers,
            saved_frames,
            saved_frame: self.current_frame,
            saved_continuation: self.continuation,
        };
        self.choice_points.push(cp);
        proof {
            assert(self.choice_points@.drop_last() =~= pre.choice_points@);
            let h = self.heap_v();
            let tr = self.trail_v();
            assert forall|i: int| 0 <= i < self.choice_points@.len() implies cp_ok(
                #[trigger] self.choice_points@[i],
                h,
                tr,
            ) by {
                let cpi = self.choice_points@[i];
                if i < pre.choice_points@.len() {
                    assert(cpi == pre.choice_points@[i]);
                    assert(cp_ok(cpi, h, tr));
                } else {
                    assert forall|a: int|
                        0 <= a < cpi.heap_size as int && !trailed_since(
                            tr,
                            cpi.trail_len as int,
                            a,
                        ) implies #[trigger] cell_stable(
                        h,
                        tr,
                        cpi.trail_len as int,
                        cpi.heap_size as int,
                        a,
                    ) by {
                        assert(cell_wf(h, a));
                    }
                }
            }
        }
    }

    /// Backtrack: pop the newest choice point, undo every binding trailed
    /// since it was recorded, truncate heap and trail to their recorded
    /// sizes, restore the saved registers, environment and continuation, and
    /// jump to the saved alternative.
    pub fn backtrack(&mut self)
        requires
            old(self).wf(),
            old(self).choice_points@.len() > 0,
        ensures
            final(self).wf(),
            restored_from(*old(self), *final(self)),
    {
        let ghost pre = *self;
        let cp = match self.choice_points.pop() {
            Some(cp) => cp,
            None => {
                proof {
                    assert(false);
                }
                return ;
            },
        };
        let ghost gcp = cp;
        proof {
            assert(gcp == pre.choice_points@.last());
            assert(cp_ok(gcp, pre.heap_v(), pre.trail_v()));
        }
        let mut i: usize = cp.trail_len;
        while i < self.trail.len()
            invariant
                pre.wf(),
                gcp == pre.choice_points@.last(),
                gcp.trail_len <= i <= self.trail@.len(),
                self.trail == pre.trail,
                self.heap@.len() == pre.heap@.len(),
                self.registers == pre.registers,
                self.frames == pre.frames,
                self.current_frame == pre.current_frame,
                self.choice_points@ == pre.choice_points@.drop_last(),
                self.program == pre.program,
                self.program_counter == pre.program_counter,
                self.continuation == pre.continuation,
                self.symbols == pre.symbols,
                self.mode == pre.mode,
                forall|t: int|
                    0 <= t < pre.hlen() ==> #[trigger] self.heap_v()[t] == (if trailed_before(
                        pre.trail_v(),
                        gcp.trail_len as int,
                        i as int,
                        t,
                    ) {
                        TermView::Unbound
                    } else {
                        pre.heap_v()[t]
                    }),
            decreases self.trail@.len() - i,
        {
            let addr = self.trail[i];
            proof {
                assert(0 <= pre.trail_v()[i as int] < pre.hlen());
                assert(addr as int == pre.trail_v()[i as int]);
            }
            let ghost hmid = self.heap_v();
            self.heap[addr] = Term::Unbound;
            proof {
                assert(self.heap_v() =~= hmid.update(addr as int, TermView::Unbound));
                let trv = pre.trail_v();
                let tl = gcp.trail_len as int;
                assert forall|t: int|
                    0 <= t < pre.hlen() implies #[trigger] self.heap_v()[t] == (if trailed_before(
                    trv,
                    tl,
                    i as int + 1,
                    t,
                ) {
                    TermView::Unbound
                } else {
                    pre.heap_v()[t]
                }) by {
                    if t == addr as int {
                        assert(trv[i as int] == t);
                        assert(trailed_before(trv, tl, i as int + 1, t));
                    } else {
                        if trailed_before(trv, tl, i as int + 1, t) {
                            let k = choose|k: int|
                                tl <= k < i as int + 1 && k < trv.len() && trv[k] == t;
                            assert(k < i as int);
                            assert(trailed_before(trv, tl, i as int, t));
                        }
                    }
                }
            }
            i = i + 1;
        }
        let ghost hund = self.heap_v();
        self.trail.truncate(cp.trail_len);
        self.heap.truncate(cp.heap_size);
        proof {
            assert(gcp.heap_size as int <= pre.hlen());
            assert forall|a: int| 0 <= a < gcp.heap_size as int implies self.heap_v()[a]
                == hund[a] by {
            }
        }
        self.registers = cp.saved_registers;
        self.frames = cp.saved_frames;
        self.current_frame = cp.saved_frame;
        self.continuation = cp.saved_continuation;
        self.program_counter = cp.alternative;
        self.mode = BuildMode::Idle;
        proof {
            assert(self.trail_v() =~= pre.trail_v().subrange(0, gcp.trail_len as int));
            let trv = pre.trail_v();
            let tl = gcp.trail_len as int;
            assert forall|a: int| 0 <= a < gcp.heap_size as int implies self.heap_v()[a] == (
            if trailed_since(trv, tl, a) {
                TermView::Unbound
            } else {
                pre.heap_v()[a]
            }) by {
                assert(self.heap_v()[a] == hund[a]);
                assert(hund[a] == (if trailed_before(trv, tl, trv.len() as int, a) {
                    TermView::Unbound
                } else {
                    pre.heap_v()[a]
                }));
                if trailed_before(trv, tl, trv.len() as int, a) {
                    let k = choose|k: int| tl <= k < trv.len() && k < trv.len() && trv[k] == a;
                    assert(trv[k] == a);
                    assert(trailed_since(trv, tl, a));
                }
                if trailed_since(trv, tl, a) {
                    let k = choose|k: int| tl <= k < trv.len() && trv[k] == a;
                    assert(tl <= k < trv.len() as int && k < trv.len() && trv[k] == a);
                    assert(trailed_before(trv, tl, trv.len() as int, a));
                }
            }
            assert(self.heap_v() =~= Seq::new(
                gcp.heap_size as nat,
                |a: int|
                    if trailed_since(pre.trail_v(), gcp.trail_len as int, a) {
                        TermView::Unbound
                    } else {
                        pre.heap_v()[a]
                    },
            ));
            lemma_backtrack_wf(pre, *self);
        }
    }

    /// A recoverable unification failure: backtrack if a choice point
    /// remains, otherwise the whole query fails.
    fn fail_step(&mut self) -> (r: Outcome)
        requires
            old(self).wf(),
        ensures
            final(self).wf(),
            old(self).choice_points@.len() == 0 ==> r == Outcome::Halted(
                Halted::Failure(WamError::UnificationFailure),
            ) && *final(self) == *old(self),
            old(self).choice_points@.len() > 0 ==> r == Outcome::Continuing && restored_from(
                *old(self),
                *final(self),
            ),
    {
        if self.choice_points.len() == 0 {
            Outcome::Halted(Halted::Failure(WamError::UnificationFailure))
        } else {
            self.backtrack();
            Outcome::Continuing
        }
    }
}

/// First match in the symbol table at or after position `i`.
pub open spec fn lookup_from(syms: Seq<(String, usize)>, name: Seq<char>, i: int) -> Option<int>
    decreases syms.len() - i,
{
    if i < 0 || i >= syms.len() {
        None
    } else if syms[i].0@ == name {
        Some(syms[i].1 as int)
    } else {
        lookup_from(syms, name, i + 1)
    }
}

/// The address a procedure name resolves to: the first entry of the symbol
/// table with that name.
pub open spec fn lookup_sym(syms: Seq<(String, usize)>, name: Seq<char>) -> Option<int> {
    lookup_from(syms, name, 0)
}

/// The value written through `reg`: the named slot holds `t` afterwards and
/// every other temporary register and frame slot is untouched.
pub open spec fn wrote_reg(pre: Wam, post: Wam, reg: Register, t: TermView) -> bool {
    match reg {
        Register::Temporary(n) => {
            &&& post.registers@.len() == pre.registers@.len()
            &&& post.registers@[n as int]@ == t
            &&& forall|j: int|
                0 <= j < pre.registers@.len() && j != n as int ==> #[trigger] post.registers@[j]
                    == pre.registers@[j]
            &&& post.frames == pre.frames
        },
        Register::Permanent(n) => {
            &&& post.registers == pre.registers
            &&& pre.current_frame matches Some(c) && {
                &&& post.frames@.len() == pre.frames@.len()
                &&& forall|i: int|
                    0 <= i < pre.frames@.len() && i != c as int ==> #[trigger] post.frames@[i]
                        == pre.frames@[i]
                &&& post.frames@[c as int].slots@.len() == pre.frames@[c as int].slots@.len()
                &&& post.frames@[c as int].slots@[n as int]@ == t
                &&& forall|j: int|
                    0 <= j < pre.frames@[c as int].slots@.len() && j != n as int
                        ==> #[trigger] post.frames@[c as int].slots@[j]
                        == pre.frames@[c as int].slots@[j]
                &&& post.frames@[c as int].continuation == pre.frames@[c as int].continuation
                &&& post.frames@[c as int].previous == pre.frames@[c as int].previous
            }
        },
    }
}

impl Wam {
    /// Whether `reg` names an existing slot: a temporary below the register
    /// file's size, or a permanent below the current frame's slot count.
    pub open spec fn reg_ok(self, reg: Register) -> bool {
        match reg {
            Register::Temporary(n) => (n as int) < self.registers@.len(),
            Register::Permanent(n) => self.current_frame matches Some(c) && (n as int)
                < self.frames@[c as int].slots@.len(),
        }
    }

    /// The error an out-of-bounds register access reports: no frame at all
    /// is an underflow, an index past the bound an overflow.
    pub open spec fn reg_err(self, reg: Register) -> WamError {
        match reg {
            Register::Temporary(_) => WamError::StackOverflow,
            Register::Permanent(_) => if self.current_frame is None {
                WamError::StackUnderflow
            } else {
                WamError::StackOverflow
            },
        }
    }

    /// The term a readable register holds.
    pub open spec fn reg_at(self, reg: Register) -> TermView {
        match reg {
            Register::Temporary(n) => self.registers@[n as int]@,
            Register::Permanent(n) => match self.current_frame {
                Some(c) => self.frames@[c as int].slots@[n as int]@,
                None => TermView::Unbound,
            },
        }
    }

    /// The dereferenced value of a register term: a heap reference is
    /// resolved to its terminal address, an inline constant is itself.
    pub open spec fn resolved(self, t: TermView) -> TermView {
        match t {
            TermView::Ref(x) => TermView::Ref(deref_spec(self.heap_v(), x)),
            _ => t,
        }
    }

    /// Bounds-check a register name without touching anything.
    fn check_register(&self, reg: Register) -> (r: Result<(), WamError>)
        requires
            self.wf(),
        ensures
            self.reg_ok(reg) ==> r == Ok::<(), WamError>(()),
            !self.reg_ok(reg) ==> r == Err::<(), WamError>(self.reg_err(reg)),
    {
        match reg {
            Register::Temporary(n) => if n < self.registers.len() {
                Ok(())
            } else {
                Err(WamError::StackOverflow)
            },
            Register::Permanent(n) => match self.current_frame {
                Some(c) => if n < self.frames[c].slots.len() {
                    Ok(())
                } else {
                    Err(WamError::StackOverflow)
                },
                None => Err(WamError::StackUnderflow),
            },
        }
    }

    /// Read a register: a copy of the term in a temporary slot, or in a
    /// slot of the current frame. Out of bounds is an overflow; a permanent
    /// access with no frame is an underflow.
    pub fn get_register(&self, reg: Register) -> (r: Result<Term, WamError>)
        requires
            self.wf(),
        ensures
            self.reg_ok(reg) ==> (r matches Ok(t) && t@ == self.reg_at(reg) && reg_term_ok(
                t@,
                self.hlen(),
            )),
            !self.reg_ok(reg) ==> r == Err::<Term, WamError>(self.reg_err(reg)),
    {
        match reg {
            Register::Temporary(n) => if n < self.registers.len() {
                Ok(self.registers[n].clone())
            } else {
                Err(WamError::StackOverflow)
            },
            Register::Permanent(n) => match self.current_frame {
                Some(c) => if n < self.frames[c].slots.len() {
                    Ok(self.frames[c].slots[n].clone())
                } else {
                    Err(WamError::StackOverflow)
                },
                None => Err(WamError::StackUnderflow),
            },
        }
    }

    /// Write a register, with the same bounds discipline as reading.
    pub fn set_register(&mut self, reg: Register, value: Term) -> (r: Result<(), WamError>)
        requires
            old(self).wf(),
            reg_term_ok(value@, old(self).hlen()),
        ensures
            final(self).wf(),
            old(self).reg_ok(reg) ==> r == Ok::<(), WamError>(()) && wrote_reg(
                *old(self),
                *final(self),
                reg,
                value@,
            ) && unchanged_but_registers(*old(self), *final(self)),
            !old(self).reg_ok(reg) ==> r == Err::<(), WamError>(old(self).reg_err(reg))
                && *final(self) == *old(self),
    {
        let ghost pre = *self;
        match reg {
            Register::Temporary(n) => if n < self.registers.len() {
                self.registers[n] = value;
                Ok(())
            } else {
                Err(WamError::StackOverflow)
            },
            Register::Permanent(n) => match self.current_frame {
                Some(c) => if n < self.frames[c].slots.len() {
                    self.frames[c].slots[n] = value;
                    proof {
                        assert forall|i: int| 0 <= i < self.frames@.len() implies frame_ok(
                            #[trigger] self.frames@[i],
                            self.hlen(),
                            i,
                        ) by {
                            assert(frame_ok(pre.frames@[i], pre.hlen(), i));
                            if i == c as int {
                                assert forall|j: int|
                                    0 <= j < self.frames@[i].slots@.len() implies reg_term_ok(
                                    #[trigger] self.frames@[i].slots@[j]@,
                                    self.hlen(),
                                ) by {
                                    if j != n as int {
                                        assert(self.frames@[i].slots@[j]
                                            == pre.frames@[i].slots@[j]);
                                    }
                                }
                            }
                        }
                    }
                    Ok(())
                } else {
                    Err(WamError::StackOverflow)
                },
                None => Err(WamError::StackUnderflow),
            },
        }
    }

    /// Resolve a procedure name to its first address in the symbol table.
    fn lookup(&self, name: &String) -> (r: Option<usize>)
        ensures
            r matches Some(u) ==> lookup_sym(self.symbols@, name@) == Some(u as int),
            r is None ==> lookup_sym(self.symbols@, name@) is None,
    {
        let mut i: usize = 0;
        while i < self.symbols.len()
            invariant
                i <= self.symbols@.len(),
                lookup_from(self.symbols@, name@, 0) == lookup_from(self.symbols@, name@, i as int),
            decreases self.symbols@.len() - i,
        {
            if self.symbols[i].0 == *name {
                return Some(self.symbols[i].1);
            }
            i = i + 1;
        }
        None
    }
}

impl Wam {
    /// Start building a structure with the given functor; `SetVariable` and
    /// `SetValue` then append its arguments, and `end_structure` places the
    /// finished cell on the heap. Any construction or matching already in
    /// progress is abandoned.
    pub fn begin_structure(&mut self, functor: String)
        requires
            old(self).wf(),
        ensures
            final(self).wf(),
            final(self).mode matches BuildMode::Writing(f, args) && f@ == functor@ && args@.len()
                == 0,
            unchanged_but_mode(*old(self), *final(self)),
    {
        self.mode = BuildMode::Writing(functor, Vec::new());
    }

    /// Append one collected argument address to the structure being built.
    fn push_build_arg(&mut self, addr: usize)
        requires
            old(self).wf(),
            (addr as int) < old(self).hlen(),
            old(self).mode is Writing,
        ensures
            final(self).wf(),
            old(self).mode matches BuildMode::Writing(f1, a1) ==> (final(self).mode matches
                BuildMode::Writing(f2, a2) && f2 == f1 && a2@ == a1@.push(addr)),
            unchanged_but_mode(*old(self), *final(self)),
    {
        match &mut self.mode {
            BuildMode::Writing(_, args) => {
                args.push(addr);
            },
            _ => {},
        }
    }

    /// Finish the structure under construction: place its cell on the heap
    /// and return its address. With no structure under construction, the
    /// error says so.
    pub fn end_structure(&mut self) -> (r: Result<usize, WamError>)
        requires
            old(self).wf(),
        ensures
            final(self).wf(),
            old(self).mode matches BuildMode::Writing(f, args) ==> (r matches Ok(addr)
                && addr as int == old(self).hlen() && final(self).heap_v() == old(self).heap_v().push(TermView::Structure(f@, addrs_v(args@))) && final(self).mode is Idle
                && unchanged_but_heap_mode(*old(self), *final(self))),
            !(old(self).mode is Writing) ==> r == Err::<usize, WamError>(
                WamError::NoActiveStructure,
            ) && *final(self) == *old(self),
    {
        let cell_opt = match &self.mode {
            BuildMode::Writing(f, args) => Some(Term::Structure(f.clone(), copy_addrs(args))),
            _ => None,
        };
        match cell_opt {
            Some(cell) => {
                let addr = self.heap.len();
                self.push_cell(cell);
                self.mode = BuildMode::Idle;
                Ok(addr)
            },
            None => Err(WamError::NoActiveStructure),
        }
    }

    /// Start matching against the structure reached from `addr`:
    /// `UnifyVariable` and `UnifyValue` then walk its arguments in order.
    /// If the address does not lead to a structure, the mismatch is a
    /// unification failure and nothing changes.
    pub fn begin_matching(&mut self, addr: usize) -> (r: Result<(), WamError>)
        requires
            old(self).wf(),
            (addr as int) < old(self).hlen(),
        ensures
            final(self).wf(),
            old(self).heap_v()[deref_spec(old(self).heap_v(), addr as int)] is Structure ==> (
            final(self).mode matches BuildMode::Reading(s, k) && r == Ok::<(), WamError>(())
                && s as int == deref_spec(old(self).heap_v(), addr as int) && k == 0
                && unchanged_but_mode(*old(self), *final(self))),
            !(old(self).heap_v()[deref_spec(old(self).heap_v(), addr as int)] is Structure) ==> r
                == Err::<(), WamError>(WamError::UnificationFailure) && *final(self) == *old(self),
    {
        let d = self.deref_addr(addr);
        let is_structure = matches!(&self.heap[d], Term::Structure(..));
        if is_structure {
            self.mode = BuildMode::Reading(d, 0);
            Ok(())
        } else {
            Err(WamError::UnificationFailure)
        }
    }
}

/// The complete step relation of `execute_next`: everything one call of it
/// is proved to do, from machine `pre` to machine `post` with outcome `r`.
/// `run_to_completion` chains this relation step by step.
pub open spec fn step_spec(pre: Wam, post: Wam, r: Outcome) -> bool {
    &&& post.wf()
    &&& (pre.program_counter as int) >= pre.program@.len() ==> r == Outcome::Halted(
        Halted::Success,
    ) && post == pre
    &&& ({
        let pc = pre.program_counter as int;
        pc < pre.program@.len() ==> {
            &&& pre.program@[pc]@ matches InstructionView::PutVariable(ra, rb) ==> {
                &&& !pre.reg_ok(ra) ==> r == Outcome::Halted(
                    Halted::Failure(pre.reg_err(ra)),
                ) && post == pre
                &&& pre.reg_ok(ra) && !pre.reg_ok(rb) ==> r == Outcome::Halted(
                    Halted::Failure(pre.reg_err(rb)),
                ) && post == pre
                &&& pre.reg_ok(ra) && pre.reg_ok(rb) ==> r == Outcome::Continuing
                    && post.heap_v() == pre.heap_v().push(TermView::Unbound)
                    && post.reg_at(ra) == TermView::Ref(pre.hlen())
                    && post.reg_at(rb) == TermView::Ref(pre.hlen())
                    && post.program_counter == pc + 1 && post.trail
                    == pre.trail && post.choice_points == pre.choice_points
                    && post.current_frame == pre.current_frame && post.mode
                    == pre.mode && post.program == pre.program
            }
            &&& pre.program@[pc]@ matches InstructionView::GetVariable(ra, rb) ==> {
                &&& !pre.reg_ok(rb) ==> r == Outcome::Halted(
                    Halted::Failure(pre.reg_err(rb)),
                ) && post == pre
                &&& pre.reg_ok(rb) && !pre.reg_ok(ra) ==> r == Outcome::Halted(
                    Halted::Failure(pre.reg_err(ra)),
                ) && post == pre
                &&& pre.reg_ok(rb) && pre.reg_ok(ra) ==> r == Outcome::Continuing
                    && wrote_reg(pre, post, ra, pre.reg_at(rb))
                    && post.program_counter == pc + 1 && post.heap
                    == pre.heap && post.trail == pre.trail
                    && post.choice_points == pre.choice_points && post.mode
                    == pre.mode && post.program == pre.program
            }
            &&& pre.program@[pc]@ matches InstructionView::PutValue(ra, rb) ==> {
                &&& !pre.reg_ok(ra) ==> r == Outcome::Halted(
                    Halted::Failure(pre.reg_err(ra)),
                ) && post == pre
                &&& pre.reg_ok(ra) && !pre.reg_ok(rb) ==> r == Outcome::Halted(
                    Halted::Failure(pre.reg_err(rb)),
                ) && post == pre
                &&& pre.reg_ok(ra) && pre.reg_ok(rb) ==> r == Outcome::Continuing
                    && wrote_reg(pre, post, rb, pre.resolved(pre.reg_at(ra)))
                    && post.program_counter == pc + 1 && post.heap
                    == pre.heap && post.trail == pre.trail
                    && post.choice_points == pre.choice_points && post.mode
                    == pre.mode && post.program == pre.program
            }
            &&& pre.program@[pc]@ matches InstructionView::GetValue(ra, rb) ==> {
                &&& !pre.reg_ok(ra) ==> r == Outcome::Halted(
                    Halted::Failure(pre.reg_err(ra)),
                ) && post == pre
                &&& pre.reg_ok(ra) && !pre.reg_ok(rb) ==> r == Outcome::Halted(
                    Halted::Failure(pre.reg_err(rb)),
                ) && post == pre
                &&& pre.reg_ok(ra) && pre.reg_ok(rb) ==> unify_outcome(
                    pre,
                    post,
                    pre.reg_at(ra),
                    pre.reg_at(rb),
                    pc + 1,
                    pre.mode,
                    r,
                )
            }
            &&& pre.program@[pc]@ matches InstructionView::Call(name) ==> {
                &&& lookup_sym(pre.symbols@, name) matches Some(addr) ==> r
                    == Outcome::Continuing && post.program_counter as int == addr
                    && post.continuation == pc + 1 && unchanged_but_control(
                    pre,
                    post,
                )
                &&& lookup_sym(pre.symbols@, name) is None ==> r == Outcome::Halted(
                    Halted::Failure(WamError::UnknownProcedure),
                ) && post == pre
            }
            &&& pre.program@[pc]@ matches InstructionView::Proceed ==> {
                &&& pre.current_frame is None ==> r == Outcome::Halted(Halted::Success)
                    && post == pre
                &&& pre.current_frame matches Some(c) ==> r == Outcome::Continuing
                    && post.program_counter == pre.frames@[c as int].continuation
                    && post.current_frame == pre.frames@[c as int].previous
                    && unchanged_but_control(pre, post)
            }
            &&& pre.program@[pc]@ matches InstructionView::Allocate(n) ==> r
                == Outcome::Continuing && post.frames@.len() == pre.frames@.len()
                + 1 && post.frames@.drop_last() == pre.frames@ && ({
                let f = post.frames@.last();
                &&& f.slots@.len() == n
                &&& f.continuation == pre.continuation
                &&& f.previous == pre.current_frame
            }) && (post.current_frame matches Some(c) && c as int
                == pre.frames@.len()) && post.program_counter == pc + 1 && post.heap == pre.heap && post.trail == pre.trail && post.choice_points == pre.choice_points && post.registers
                == pre.registers && post.mode == pre.mode && post.program
                == pre.program
            &&& pre.program@[pc]@ matches InstructionView::Deallocate ==> {
                &&& pre.current_frame is None ==> r == Outcome::Halted(
                    Halted::Failure(WamError::StackUnderflow),
                ) && post == pre
                &&& pre.current_frame matches Some(c) ==> r == Outcome::Continuing
                    && post.current_frame == pre.frames@[c as int].previous
                    && post.program_counter == pc + 1 && unchanged_but_control(
                    pre,
                    post,
                )
            }
            &&& pre.program@[pc]@ matches InstructionView::SetVariable(reg) ==> {
                &&& !(pre.mode is Writing) ==> r == Outcome::Halted(
                    Halted::Failure(WamError::NoActiveStructure),
                ) && post == pre
                &&& pre.mode is Writing && !pre.reg_ok(reg) ==> r == Outcome::Halted(
                    Halted::Failure(pre.reg_err(reg)),
                ) && post == pre
                &&& pre.mode matches BuildMode::Writing(f1, a1) ==> pre.reg_ok(reg) ==> (
                post.mode matches BuildMode::Writing(f2, a2) && f2 == f1 && a2@
                    == a1@.push((pre.hlen()) as usize) && r == Outcome::Continuing
                    && post.heap_v() == pre.heap_v().push(TermView::Unbound)
                    && post.reg_at(reg) == TermView::Ref(pre.hlen())
                    && post.program_counter == pc + 1 && post.trail
                    == pre.trail && post.choice_points == pre.choice_points)
            }
            &&& pre.program@[pc]@ matches InstructionView::SetValue(reg) ==> {
                &&& !(pre.mode is Writing) ==> r == Outcome::Halted(
                    Halted::Failure(WamError::NoActiveStructure),
                ) && post == pre
                &&& pre.mode is Writing && !pre.reg_ok(reg) ==> r == Outcome::Halted(
                    Halted::Failure(pre.reg_err(reg)),
                ) && post == pre
                &&& pre.mode matches BuildMode::Writing(f1, a1) ==> pre.reg_ok(reg)
                    ==> r == Outcome::Continuing && post.program_counter == pc + 1
                    && (pre.reg_at(reg) matches TermView::Ref(x) ==> (post.mode
                    matches BuildMode::Writing(f2, a2) && f2 == f1 && a2@ == a1@.push(
                    (deref_spec(pre.heap_v(), x)) as usize,
                ) && post.heap == pre.heap)) && (pre.reg_at(reg) matches
                    TermView::Constant(cn) ==> (post.mode matches
                    BuildMode::Writing(f3, a3) && f3 == f1 && a3@ == a1@.push(
                    (pre.hlen()) as usize,
                ) && post.heap_v() == pre.heap_v().push(TermView::Constant(cn))))
            }
            &&& pre.program@[pc]@ matches InstructionView::UnifyVariable(reg) ==> {
                &&& !(pre.mode is Reading) ==> r == Outcome::Halted(
                    Halted::Failure(WamError::NoActiveStructure),
                ) && post == pre
                &&& pre.mode matches BuildMode::Reading(s, k) ==> pre.heap_v()[s as int]
                    matches TermView::Structure(f, ar) ==> {
                    &&& k as int >= ar.len() ==> r == Outcome::Halted(
                        Halted::Failure(WamError::StackOverflow),
                    ) && post == pre
                    &&& (k as int) < ar.len() && !pre.reg_ok(reg) ==> r
                        == Outcome::Halted(Halted::Failure(pre.reg_err(reg))) && post == pre
                    &&& (k as int) < ar.len() && pre.reg_ok(reg) ==> (post.mode
                        matches BuildMode::Reading(s2, k2) && s2 == s && k2 == k + 1 && r
                        == Outcome::Continuing && post.reg_at(reg)
                        == TermView::Ref(ar[k as int]) && post.program_counter
                        == pc + 1 && post.heap == pre.heap && post.trail
                        == pre.trail && post.choice_points == pre.choice_points)
                }
            }
            &&& pre.program@[pc]@ matches InstructionView::UnifyValue(reg) ==> {
                &&& !(pre.mode is Reading) ==> r == Outcome::Halted(
                    Halted::Failure(WamError::NoActiveStructure),
                ) && post == pre
                &&& pre.mode matches BuildMode::Reading(s, k) ==> pre.heap_v()[s as int]
                    matches TermView::Structure(f, ar) ==> {
                    &&& k as int >= ar.len() ==> r == Outcome::Halted(
                        Halted::Failure(WamError::StackOverflow),
                    ) && post == pre
                    &&& (k as int) < ar.len() && !pre.reg_ok(reg) ==> r
                        == Outcome::Halted(Halted::Failure(pre.reg_err(reg))) && post == pre
                    &&& (k as int) < ar.len() && pre.reg_ok(reg) ==> unify_outcome(
                        pre,
                        post,
                        pre.reg_at(reg),
                        TermView::Ref(ar[k as int]),
                        pc + 1,
                        BuildMode::Reading(s, (k + 1) as usize),
                        r,
                    )
                }
            }
        }
    })
}

impl Wam {
    /// Execute exactly one instruction: fetch at the program counter,
    /// dispatch, apply its effect, and advance or redirect the counter.
    /// A counter past the end of the program halts successfully. Bounds
    /// errors, an unknown procedure and a missing structure mode are fatal;
    /// a unification failure backtracks while a choice point remains and is
    /// terminal only once none does.
    #[verifier::rlimit(100)]
    pub fn execute_next(&mut self) -> (r: Outcome)
        requires
            old(self).wf(),
        ensures
            final(self).wf(),
            step_spec(*old(self), *final(self), r),
    {
        if self.program_counter >= self.program.len() {
            return Outcome::Halted(Halted::Success);
        }
        let instr = self.program[self.program_counter].clone();
        match instr {
            Instruction::PutVariable(ra, rb) => {
                match self.check_register(ra) {
                    Err(e) => {
                        return Outcome::Halted(Halted::Failure(e));
                    },
                    Ok(()) => {},
                }
                match self.check_register(rb) {
                    Err(e) => {
                        return Outcome::Halted(Halted::Failure(e));
                    },
                    Ok(()) => {},
                }
                let addr = self.new_unbound();
                match self.set_register(ra, Term::Ref(addr)) {
                    Ok(()) => {},
                    Err(_) => {
                        proof {
                            assert(false);
                        }
                    },
                }
                match self.set_register(rb, Term::Ref(addr)) {
                    Ok(()) => {},
                    Err(_) => {
                        proof {
                            assert(false);
                        }
                    },
                }
                self.program_counter = self.program_counter + 1;
                Outcome::Continuing
            },
            Instruction::GetVariable(ra, rb) => {
                let v = match self.get_register(rb) {
                    Ok(v) => v,
                    Err(e) => {
                        return Outcome::Halted(Halted::Failure(e));
                    },
                };
                match self.set_register(ra, v) {
                    Ok(()) => {},
                    Err(e) => {
                        return Outcome::Halted(Halted::Failure(e));
                    },
                }
                self.program_counter = self.program_counter + 1;
                Outcome::Continuing
            },
            Instruction::PutValue(ra, rb) => {
                let v = match self.get_register(ra) {
                    Ok(v) => v,
                    Err(e) => {
                        return Outcome::Halted(Halted::Failure(e));
                    },
                };
                let resolved = match v {
                    Term::Ref(x) => Term::Ref(self.deref_addr(x)),
                    other => other,
                };
                match self.set_register(rb, resolved) {
                    Ok(()) => {},
                    Err(e) => {
                        return Outcome::Halted(Halted::Failure(e));
                    },
                }
                self.program_counter = self.program_counter + 1;
                Outcome::Continuing
            },
            Instruction::GetValue(ra, rb) => {
                let v1 = match self.get_register(ra) {
                    Ok(v) => v,
                    Err(e) => {
                        return Outcome::Halted(Halted::Failure(e));
                    },
                };
                let v2 = match self.get_register(rb) {
                    Ok(v) => v,
                    Err(e) => {
                        return Outcome::Halted(Halted::Failure(e));
                    },
                };
                self.get_value_step(&v1, &v2)
            },
            Instruction::Call(name) => {
                match self.lookup(&name) {
                    Some(addr) => {
                        self.continuation = self.program_counter + 1;
                        self.program_counter = addr;
                        Outcome::Continuing
                    },
                    None => Outcome::Halted(Halted::Failure(WamError::UnknownProcedure)),
                }
            },
            Instruction::Proceed => {
                match self.current_frame {
                    Some(c) => {
                        self.program_counter = self.frames[c].continuation;
                        self.current_frame = self.frames[c].previous;
                        Outcome::Continuing
                    },
                    None => Outcome::Halted(Halted::Success),
                }
            },
            Instruction::Allocate(n) => {
                let mut slots: Vec<Term> = Vec::new();
                let mut i: usize = 0;
                while i < n
                    invariant
                        i <= n,
                        slots@.len() == i,
                        forall|j: int| 0 <= j < i ==> (#[trigger] slots@[j]@) is Constant,
                    decreases n - i,
                {
                    slots.push(Term::Constant("undefined".to_owned()));
                    i = i + 1;
                }
                let idx = self.frames.len();
                let f = Frame {
                    slots,
                    continuation: self.continuation,
                    previous: self.current_frame,
                };
                let ghost pre_frames = self.frames@;
                self.frames.push(f);
                self.current_frame = Some(idx);
                proof {
                    assert(self.frames@.drop_last() =~= pre_frames);
                    assert forall|i2: int| 0 <= i2 < self.frames@.len() implies frame_ok(
                        #[trigger] self.frames@[i2],
                        self.hlen(),
                        i2,
                    ) by {
                        if i2 < pre_frames.len() {
                            assert(self.frames@[i2] == pre_frames[i2]);
                            assert(frame_ok(pre_frames[i2], self.hlen(), i2));
                        }
                    }
                }
                self.program_counter = self.program_counter + 1;
                Outcome::Continuing
            },
            Instruction::Deallocate => {
                match self.current_frame {
                    Some(c) => {
                        self.current_frame = self.frames[c].previous;
                        self.program_counter = self.program_counter + 1;
                        Outcome::Continuing
                    },
                    None => Outcome::Halted(Halted::Failure(WamError::StackUnderflow)),
                }
            },
            Instruction::SetVariable(reg) => {
                let writing = matches!(&self.mode, BuildMode::Writing(..));
                if !writing {
                    return Outcome::Halted(Halted::Failure(WamError::NoActiveStructure));
                }
                match self.check_register(reg) {
                    Err(e) => {
                        return Outcome::Halted(Halted::Failure(e));
                    },
                    Ok(()) => {},
                }
                let addr = self.new_unbound();
                self.push_build_arg(addr);
                match self.set_register(reg, Term::Ref(addr)) {
                    Ok(()) => {},
                    Err(_) => {
                        proof {
                            assert(false);
                        }
                    },
                }
                self.program_counter = self.program_counter + 1;
                Outcome::Continuing
            },
            Instruction::SetValue(reg) => {
                let writing = matches!(&self.mode, BuildMode::Writing(..));
                if !writing {
                    return Outcome::Halted(Halted::Failure(WamError::NoActiveStructure));
                }
                let v = match self.get_register(reg) {
                    Ok(v) => v,
                    Err(e) => {
                        return Outcome::Halted(Halted::Failure(e));
                    },
                };
                match v {
                    Term::Ref(x) => {
                        let d = self.deref_addr(x);
                        self.push_build_arg(d);
                    },
                    Term::Constant(cn) => {
                        let addr = self.new_constant(cn);
                        self.push_build_arg(addr);
                    },
                    _ => {
                        proof {
                            assert(false);
                        }
                    },
                }
                self.program_counter = self.program_counter + 1;
                Outcome::Continuing
            },
            Instruction::UnifyVariable(reg) => {
                let (s, k) = match &self.mode {
                    BuildMode::Reading(s, k) => (*s, *k),
                    _ => {
                        return Outcome::Halted(Halted::Failure(WamError::NoActiveStructure));
                    },
                };
                let (arity, argk) = match &self.heap[s] {
                    Term::Structure(_, args) => {
                        proof {
                            assert(cell_wf(self.heap_v(), s as int));
                            if (k as int) < args@.len() {
                                assert(args@.map_values(|u: usize| u as int)[k as int]
                                    == args@[k as int] as int);
                            }
                        }
                        (
                            args.len(),
                            if k < args.len() {
                                args[k]
                            } else {
                                0
                            },
                        )
                    },
                    _ => {
                        proof {
                            assert(false);
                        }
                        (0, 0)
                    },
                };
                if k >= arity {
                    return Outcome::Halted(Halted::Failure(WamError::StackOverflow));
                }
                match self.check_register(reg) {
                    Err(e) => {
                        return Outcome::Halted(Halted::Failure(e));
                    },
                    Ok(()) => {},
                }
                proof {
                    assert(cell_wf(self.heap_v(), s as int));
                }
                match self.set_register(reg, Term::Ref(argk)) {
                    Ok(()) => {},
                    Err(_) => {
                        proof {
                            assert(false);
                        }
                    },
                }
                self.mode = BuildMode::Reading(s, k + 1);
                self.program_counter = self.program_counter + 1;
                Outcome::Continuing
            },
            Instruction::UnifyValue(reg) => {
                let (s, k) = match &self.mode {
                    BuildMode::Reading(s, k) => (*s, *k),
                    _ => {
                        return Outcome::Halted(Halted::Failure(WamError::NoActiveStructure));
                    },
                };
                let (arity, argk) = match &self.heap[s] {
                    Term::Structure(_, args) => {
                        proof {
                            assert(cell_wf(self.heap_v(), s as int));
                            if (k as int) < args@.len() {
                                assert(args@.map_values(|u: usize| u as int)[k as int]
                                    == args@[k as int] as int);
                            }
                        }
                        (
                            args.len(),
                            if k < args.len() {
                                args[k]
                            } else {
                                0
                            },
                        )
                    },
                    _ => {
                        proof {
                            assert(false);
                        }
                        (0, 0)
                    },
                };
                if k >= arity {
                    return Outcome::Halted(Halted::Failure(WamError::StackOverflow));
                }
                let v = match self.get_register(reg) {
                    Ok(v) => v,
                    Err(e) => {
                        return Outcome::Halted(Halted::Failure(e));
                    },
                };
                proof {
                    assert(cell_wf(self.heap_v(), s as int));
                }
                self.unify_value_step(&v, argk, s, k)
            },
        }
    }

    /// Run until the machine halts or `max_steps` instructions have been
    /// executed; in the latter case the machine is still `Continuing` and
    /// the caller may resume it. The result is a chain of steps, each
    /// obeying the step relation: a `Continuing` result means exactly
    /// `max_steps` continuing steps were taken; any other result is the
    /// outcome of the one step that ended the run.
    pub fn run_to_completion(&mut self, max_steps: usize) -> (r: Outcome)
        requires
            old(self).wf(),
        ensures
            final(self).wf(),
            exists|chain: Seq<Wam>|
                #[trigger] continuing_chain(chain) && chain.len() >= 1 && chain.len()
                    <= max_steps + 1 && chain.first() == *old(self) && (r == Outcome::Continuing
                    ==> chain.len() == max_steps + 1 && *final(self) == chain.last()) && (r
                    != Outcome::Continuing ==> step_spec(chain.last(), *final(self), r)),
    {
        let ghost pre0 = *old(self);
        let ghost mut chain: Seq<Wam> = seq![pre0];
        let mut i: usize = 0;
        while i < max_steps
            invariant
                self.wf(),
                i <= max_steps,
                continuing_chain(chain),
                chain.len() == i + 1,
                chain.first() == *old(self),
                chain.last() == *self,
            decreases max_steps - i,
        {
            let ghost snap = *self;
            let o = self.execute_next();
            match o {
                Outcome::Continuing => {
                    proof {
                        let chain2 = chain.push(*self);
                        assert(chain2.last() == *self);
                        assert(chain2.first() == chain.first());
                        assert forall|j: int|
                            0 <= j < chain2.len() - 1 implies step_spec(
                            #[trigger] chain2[j],
                            chain2[j + 1],
                            Outcome::Continuing,
                        ) by {
                            if j < chain.len() - 1 {
                                assert(chain2[j] == chain[j] && chain2[j + 1] == chain[j + 1]);
                                assert(step_spec(chain[j], chain[j + 1], Outcome::Continuing));
                            } else {
                                assert(chain2[j] == snap && chain2[j + 1] == *self);
                            }
                        }
                        chain = chain2;
                    }
                    i = i + 1;
                },
                _ => {
                    proof {
                        assert(continuing_chain(chain) && chain.len() >= 1 && chain.len()
                            <= max_steps + 1 && chain.first() == *old(self) && chain.last()
                            == snap && step_spec(snap, *self, o));
                    }
                    return o;
                },
            }
        }
        proof {
            assert(continuing_chain(chain) && chain.len() == max_steps + 1 && chain.first()
                == *old(self) && chain.last() == *self);
        }
        Outcome::Continuing
    }
}

/// Every adjacent pair of the chain obeys the step relation with outcome
/// `Continuing`.
pub open spec fn continuing_chain(chain: Seq<Wam>) -> bool {
    forall|i: int|
        0 <= i < chain.len() - 1 ==> step_spec(#[trigger] chain[i], chain[i + 1], Outcome::Continuing)
}

/// Everything except the current frame pointer, the program counter and the
/// continuation register is unchanged.
pub open spec fn unchanged_but_control(pre: Wam, post: Wam) -> bool {
    &&& post.heap == pre.heap
    &&& post.registers == pre.registers
    &&& post.trail == pre.trail
    &&& post.frames == pre.frames
    &&& post.choice_points == pre.choice_points
    &&& post.program == pre.program
    &&& post.symbols == pre.symbols
    &&& post.mode == pre.mode
}

/// Everything except the construction / matching state is unchanged.
pub open spec fn unchanged_but_mode(pre: Wam, post: Wam) -> bool {
    &&& post.heap == pre.heap
    &&& post.registers == pre.registers
    &&& post.trail == pre.trail
    &&& post.frames == pre.frames
    &&& post.current_frame == pre.current_frame
    &&& post.choice_points == pre.choice_points
    &&& post.program == pre.program
    &&& post.program_counter == pre.program_counter
    &&& post.continuation == pre.continuation
    &&& post.symbols == pre.symbols
}

/// Everything except the heap and the construction state is unchanged.
pub open spec fn unchanged_but_heap_mode(pre: Wam, post: Wam) -> bool {
    &&& post.registers == pre.registers
    &&& post.trail == pre.trail
    &&& post.frames == pre.frames
    &&& post.current_frame == pre.current_frame
    &&& post.choice_points == pre.choice_points
    &&& post.program == pre.program
    &&& post.program_counter == pre.program_counter
    &&& post.continuation == pre.continuation
    &&& post.symbols == pre.symbols
}

/// Everything except the register file and the frame slots is unchanged.
pub open spec fn unchanged_but_registers(pre: Wam, post: Wam) -> bool {
    &&& post.heap == pre.heap
    &&& post.trail == pre.trail
    &&& post.current_frame == pre.current_frame
    &&& post.choice_points == pre.choice_points
    &&& post.program == pre.program
    &&& post.program_counter == pre.program_counter
    &&& post.continuation == pre.continuation
    &&& post.symbols == pre.symbols
    &&& post.mode == pre.mode
}

/// Copies a vector of frames element by element; the copies have the same
/// slot values, continuations and caller links.
pub fn copy_frames(v: &Vec<Frame>) -> (r: Vec<Frame>)
    ensures
        r@.len() == v@.len(),
        forall|i: int|
            0 <= i < v@.len() ==> {
                &&& (#[trigger] r@[i]).slots@.len() == v@[i].slots@.len()
                &&& forall|j: int|
                    0 <= j < v@[i].slots@.len() ==> #[trigger] r@[i].slots@[j]@ == v@[i].slots@[j]@
                &&& r@[i].continuation == v@[i].continuation
                &&& r@[i].previous == v@[i].previous
            },
{
    let mut r: Vec<Frame> = Vec::new();
    let mut i: usize = 0;
    while i < v.len()
        invariant
            i <= v@.len(),
            r@.len() == i,
            forall|k: int|
                0 <= k < i ==> {
                    &&& (#[trigger] r@[k]).slots@.len() == v@[k].slots@.len()
                    &&& forall|j: int|
                        0 <= j < v@[k].slots@.len() ==> #[trigger] r@[k].slots@[j]@ == v@[k].slots@[j]@
                    &&& r@[k].continuation == v@[k].continuation
                    &&& r@[k].previous == v@[k].previous
                },
        decreases v@.len() - i,
    {
        let f = Frame {
            slots: copy_terms(&v[i].slots),
            continuation: v[i].continuation,
            previous: v[i].previous,
        };
        r.push(f);
        i = i + 1;
    }
    r
}

/// Copies a vector of terms element by element; the copies have the same
/// mathematical values.
pub fn copy_terms(v: &Vec<Term>) -> (r: Vec<Term>)
    ensures
        r@.len() == v@.len(),
        forall|j: int| 0 <= j < v@.len() ==> #[trigger] r@[j]@ == v@[j]@,
{
    let mut r: Vec<Term> = Vec::new();
    let mut i: usize = 0;
    while i < v.len()
        invariant
            i <= v@.len(),
            r@.len() == i,
            forall|j: int| 0 <= j < i ==> #[trigger] r@[j]@ == v@[j]@,
        decreases v@.len() - i,
    {
        r.push(v[i].clone());
        i = i + 1;
    }
    r
}

} // verus!
