use wam_rust::{Halted, Instruction, Outcome, Register, Term, Wam, WamError};

fn temp(n: usize) -> Register {
    Register::Temporary(n)
}

fn perm(n: usize) -> Register {
    Register::Permanent(n)
}

#[test]
fn self_unification_of_a_constant() {
    let mut m = Wam::new();
    let a = m.new_constant("foo".to_string());
    let trail_before = m.trail_length();
    assert!(m.unify(a, a));
    assert_eq!(m.trail_length(), trail_before);
}

#[test]
fn self_unification_of_an_unbound_variable() {
    let mut m = Wam::new();
    let u = m.new_unbound();
    assert!(m.unify(u, u));
    assert_eq!(m.trail_length(), 0);
}

#[test]
fn self_unification_of_a_structure() {
    let mut m = Wam::new();
    let x = m.new_unbound();
    let s = m.new_structure("f".to_string(), vec![x]);
    let trail_before = m.trail_length();
    assert!(m.unify(s, s));
    assert_eq!(m.trail_length(), trail_before);
}

#[test]
fn binding_symmetry_unbound_against_constant() {
    let mut m = Wam::new();
    let a = m.new_unbound();
    let b = m.new_constant("foo".to_string());
    assert!(m.unify(a, b));
    let (d, cell) = m.dereference(a);
    assert_eq!(d, b);
    assert_eq!(cell, Term::Constant("foo".to_string()));
    assert_eq!(m.trail_length(), 1);
}

#[test]
fn constant_mismatch_fails() {
    let mut m = Wam::new();
    let a = m.new_constant("foo".to_string());
    let b = m.new_constant("bar".to_string());
    assert!(!m.unify(a, b));
    assert_eq!(m.trail_length(), 0);
}

#[test]
fn constant_mismatch_with_empty_choice_points_halts_the_query() {
    let mut m = Wam::new();
    m.set_register(temp(0), Term::Constant("foo".to_string()))
        .unwrap();
    m.set_register(temp(1), Term::Constant("bar".to_string()))
        .unwrap();
    m.load_program(vec![Instruction::GetValue(temp(0), temp(1))], Vec::new());
    assert_eq!(
        m.execute_next(),
        Outcome::Halted(Halted::Failure(WamError::UnificationFailure))
    );
}

#[test]
fn structure_arity_mismatch_fails_without_touching_arguments() {
    let mut m = Wam::new();
    let x = m.new_unbound();
    let y = m.new_unbound();
    let s1 = m.new_structure("f".to_string(), vec![x]);
    let s2 = m.new_structure("f".to_string(), vec![x, y]);
    let heap_before = m.heap_size();
    let trail_before = m.trail_length();
    assert!(!m.unify(s1, s2));
    assert_eq!(m.heap_size(), heap_before);
    assert_eq!(m.trail_length(), trail_before);
}

#[test]
fn structure_functor_mismatch_fails() {
    let mut m = Wam::new();
    let x = m.new_unbound();
    let s1 = m.new_structure("f".to_string(), vec![x]);
    let s2 = m.new_structure("g".to_string(), vec![x]);
    assert!(!m.unify(s1, s2));
}

#[test]
fn matching_structures_bind_their_arguments() {
    let mut m = Wam::new();
    let c = m.new_constant("foo".to_string());
    let x = m.new_unbound();
    let s1 = m.new_structure("f".to_string(), vec![c]);
    let s2 = m.new_structure("f".to_string(), vec![x]);
    assert!(m.unify(s1, s2));
    let (d, cell) = m.dereference(x);
    assert_eq!(d, c);
    assert_eq!(cell, Term::Constant("foo".to_string()));
}

#[test]
fn backtrack_restores_heap_and_trail_exactly() {
    let mut m = Wam::new();
    let base = m.new_constant("base".to_string());
    let early = m.new_unbound();
    m.unify(early, base);
    m.record_choice_point(7);
    let h = m.heap_size();
    let l = m.trail_length();
    let c = m.new_constant("x".to_string());
    for _ in 0..3 {
        let u = m.new_unbound();
        assert!(m.unify(u, c));
    }
    assert!(m.heap_size() > h);
    assert!(m.trail_length() > l);
    m.backtrack();
    assert_eq!(m.heap_size(), h);
    assert_eq!(m.trail_length(), l);
    assert_eq!(m.program_counter(), 7);
    assert_eq!(m.choice_point_depth(), 0);
    // the binding made before the choice point survives
    let (d, cell) = m.dereference(early);
    assert_eq!(d, base);
    assert_eq!(cell, Term::Constant("base".to_string()));
}

#[test]
fn failure_with_a_choice_point_backtracks_and_continues() {
    let mut m = Wam::new();
    m.set_register(temp(0), Term::Constant("foo".to_string()))
        .unwrap();
    m.set_register(temp(1), Term::Constant("bar".to_string()))
        .unwrap();
    m.load_program(vec![Instruction::GetValue(temp(0), temp(1))], Vec::new());
    m.record_choice_point(5);
    assert_eq!(m.execute_next(), Outcome::Continuing);
    assert_eq!(m.program_counter(), 5);
    assert_eq!(m.choice_point_depth(), 0);
}

#[test]
fn environment_discipline() {
    let mut m = Wam::new();
    m.load_program(
        vec![Instruction::Allocate(3), Instruction::Deallocate],
        Vec::new(),
    );
    assert!(m.current_frame.is_none());
    assert_eq!(m.execute_next(), Outcome::Continuing);
    assert!(m.current_frame.is_some());
    assert!(m.get_register(perm(0)).is_ok());
    assert!(m.get_register(perm(1)).is_ok());
    assert!(m.get_register(perm(2)).is_ok());
    assert_eq!(m.get_register(perm(3)), Err(WamError::StackOverflow));
    assert_eq!(m.execute_next(), Outcome::Continuing);
    assert!(m.current_frame.is_none());
    assert_eq!(m.get_register(perm(0)), Err(WamError::StackUnderflow));
}

#[test]
fn scenario_a_put_get_proceed() {
    let mut m = Wam::new();
    m.load_program(
        vec![
            Instruction::PutVariable(temp(0), temp(1)),
            Instruction::GetValue(temp(0), temp(1)),
            Instruction::Proceed,
        ],
        Vec::new(),
    );
    assert_eq!(m.execute_next(), Outcome::Continuing);
    assert_eq!(m.execute_next(), Outcome::Continuing);
    assert_eq!(m.execute_next(), Outcome::Halted(Halted::Success));
}

#[test]
fn scenario_b_call_to_missing_procedure() {
    let mut m = Wam::new();
    m.load_program(vec![Instruction::Call("missing".to_string())], Vec::new());
    assert_eq!(
        m.execute_next(),
        Outcome::Halted(Halted::Failure(WamError::UnknownProcedure))
    );
}

#[test]
fn call_jumps_to_the_resolved_address() {
    let mut m = Wam::new();
    m.load_program(
        vec![
            Instruction::Call("p".to_string()),
            Instruction::Proceed,
            Instruction::Proceed,
        ],
        vec![("p".to_string(), 2)],
    );
    assert_eq!(m.execute_next(), Outcome::Continuing);
    assert_eq!(m.program_counter(), 2);
}

#[test]
fn put_variable_fills_both_registers_with_the_fresh_cell() {
    let mut m = Wam::new();
    m.load_program(
        vec![Instruction::PutVariable(temp(0), temp(1))],
        Vec::new(),
    );
    assert_eq!(m.execute_next(), Outcome::Continuing);
    assert_eq!(m.heap_size(), 1);
    let temps = m.temporaries();
    assert_eq!(temps[0], Term::Ref(0));
    assert_eq!(temps[1], Term::Ref(0));
}

#[test]
fn get_variable_copies_a_register() {
    let mut m = Wam::new();
    m.set_register(temp(1), Term::Constant("v".to_string()))
        .unwrap();
    m.load_program(
        vec![Instruction::GetVariable(temp(0), temp(1))],
        Vec::new(),
    );
    assert_eq!(m.execute_next(), Outcome::Continuing);
    assert_eq!(m.temporaries()[0], Term::Constant("v".to_string()));
}

#[test]
fn put_value_stores_the_dereferenced_value() {
    let mut m = Wam::new();
    let a = m.new_unbound();
    let b = m.new_constant("w".to_string());
    m.unify(a, b);
    m.set_register(temp(0), Term::Ref(a)).unwrap();
    m.load_program(vec![Instruction::PutValue(temp(0), temp(1))], Vec::new());
    assert_eq!(m.execute_next(), Outcome::Continuing);
    assert_eq!(m.temporaries()[1], Term::Ref(b));
}

#[test]
fn temporary_register_out_of_bounds_is_an_overflow() {
    let m = Wam::new();
    assert_eq!(m.get_register(temp(100)), Err(WamError::StackOverflow));
}

#[test]
fn run_to_completion_runs_scenario_a() {
    let mut m = Wam::new();
    m.load_program(
        vec![
            Instruction::PutVariable(temp(0), temp(1)),
            Instruction::GetValue(temp(0), temp(1)),
            Instruction::Proceed,
        ],
        Vec::new(),
    );
    assert_eq!(m.run_to_completion(10), Outcome::Halted(Halted::Success));
}

#[test]
fn run_to_completion_reports_continuing_when_the_budget_runs_out() {
    let mut m = Wam::new();
    m.load_program(
        vec![Instruction::Call("loop_forever".to_string())],
        vec![("loop_forever".to_string(), 0)],
    );
    assert_eq!(m.run_to_completion(5), Outcome::Continuing);
    assert_eq!(m.program_counter(), 0);
}

#[test]
fn running_past_the_end_of_the_program_halts() {
    let mut m = Wam::new();
    m.load_program(Vec::new(), Vec::new());
    assert_eq!(m.execute_next(), Outcome::Halted(Halted::Success));
}

#[test]
fn set_instructions_build_a_structure() {
    let mut m = Wam::new();
    let c = m.new_constant("a".to_string());
    m.set_register(temp(1), Term::Ref(c)).unwrap();
    m.begin_structure("pair".to_string());
    m.load_program(
        vec![
            Instruction::SetVariable(temp(0)),
            Instruction::SetValue(temp(1)),
        ],
        Vec::new(),
    );
    assert_eq!(m.execute_next(), Outcome::Continuing);
    assert_eq!(m.execute_next(), Outcome::Continuing);
    let addr = m.end_structure().unwrap();
    let (d, cell) = m.dereference(addr);
    assert_eq!(d, addr);
    match cell {
        Term::Structure(f, args) => {
            assert_eq!(f, "pair".to_string());
            assert_eq!(args.len(), 2);
            assert_eq!(args[1], c);
        }
        other => panic!("expected a structure, found {:?}", other),
    }
}

#[test]
fn unify_instructions_read_a_structure() {
    let mut m = Wam::new();
    let c = m.new_constant("one".to_string());
    let x = m.new_unbound();
    let s = m.new_structure("f".to_string(), vec![c, x]);
    m.begin_matching(s).unwrap();
    m.set_register(temp(1), Term::Constant("one".to_string()))
        .unwrap();
    m.load_program(
        vec![
            Instruction::UnifyVariable(temp(0)),
            Instruction::UnifyValue(temp(1)),
        ],
        Vec::new(),
    );
    assert_eq!(m.execute_next(), Outcome::Continuing);
    assert_eq!(m.temporaries()[0], Term::Ref(c));
    assert_eq!(m.execute_next(), Outcome::Continuing);
    let (d, cell) = m.dereference(x);
    assert_eq!(d, x);
    assert_eq!(cell, Term::Constant("one".to_string()));
}

#[test]
fn set_instruction_without_a_structure_is_fatal() {
    let mut m = Wam::new();
    m.load_program(vec![Instruction::SetVariable(temp(0))], Vec::new());
    assert_eq!(
        m.execute_next(),
        Outcome::Halted(Halted::Failure(WamError::NoActiveStructure))
    );
}

#[test]
fn unify_instruction_past_the_arity_is_an_overflow() {
    let mut m = Wam::new();
    let s = m.new_structure("nil".to_string(), Vec::new());
    m.begin_matching(s).unwrap();
    m.load_program(vec![Instruction::UnifyVariable(temp(0))], Vec::new());
    assert_eq!(
        m.execute_next(),
        Outcome::Halted(Halted::Failure(WamError::StackOverflow))
    );
}

#[test]
fn matching_a_constant_is_a_unification_failure() {
    let mut m = Wam::new();
    let c = m.new_constant("a".to_string());
    assert_eq!(m.begin_matching(c), Err(WamError::UnificationFailure));
}

#[test]
fn deallocate_without_a_frame_is_an_underflow() {
    let mut m = Wam::new();
    m.load_program(vec![Instruction::Deallocate], Vec::new());
    assert_eq!(
        m.execute_next(),
        Outcome::Halted(Halted::Failure(WamError::StackUnderflow))
    );
}

#[test]
fn backtrack_resets_a_binding_to_a_younger_structure() {
    let mut m = Wam::new();
    let x = m.new_unbound();
    m.record_choice_point(3);
    let h = m.heap_size();
    let l = m.trail_length();
    let c = m.new_constant("a".to_string());
    let s = m.new_structure("f".to_string(), vec![c]);
    assert!(m.unify(x, s));
    let (d, _) = m.dereference(x);
    assert_eq!(d, s);
    m.backtrack();
    assert_eq!(m.heap_size(), h);
    assert_eq!(m.trail_length(), l);
    let (d2, cell2) = m.dereference(x);
    assert_eq!(d2, x);
    assert_eq!(cell2, Term::Unbound);
    let c2 = m.new_constant("b".to_string());
    assert!(m.unify(x, c2));
    let (_, cell3) = m.dereference(x);
    assert_eq!(cell3, Term::Constant("b".to_string()));
}

#[test]
fn nested_structures_unify_recursively() {
    let mut m = Wam::new();
    let a = m.new_constant("a".to_string());
    let b = m.new_constant("b".to_string());
    let x = m.new_unbound();
    let y = m.new_unbound();
    let g_x = m.new_structure("g".to_string(), vec![x]);
    let g_a = m.new_structure("g".to_string(), vec![a]);
    let s1 = m.new_structure("f".to_string(), vec![g_x, y]);
    let s2 = m.new_structure("f".to_string(), vec![g_a, b]);
    assert!(m.unify(s1, s2));
    let (dx, cx) = m.dereference(x);
    assert_eq!(dx, a);
    assert_eq!(cx, Term::Constant("a".to_string()));
    let (dy, cy) = m.dereference(y);
    assert_eq!(dy, b);
    assert_eq!(cy, Term::Constant("b".to_string()));
}

#[test]
fn last_temporary_register_is_usable() {
    let mut m = Wam::new();
    assert!(m.set_register(temp(99), Term::Constant("edge".to_string())).is_ok());
    assert_eq!(m.get_register(temp(99)), Ok(Term::Constant("edge".to_string())));
    assert_eq!(
        m.set_register(temp(100), Term::Constant("far".to_string())),
        Err(WamError::StackOverflow)
    );
}

#[test]
fn call_resolves_to_the_first_entry_of_a_duplicated_name() {
    let mut m = Wam::new();
    m.load_program(
        vec![
            Instruction::Call("p".to_string()),
            Instruction::Proceed,
            Instruction::Proceed,
        ],
        vec![("p".to_string(), 1), ("p".to_string(), 2)],
    );
    assert_eq!(m.execute_next(), Outcome::Continuing);
    assert_eq!(m.program_counter(), 1);
}

#[test]
fn binding_two_unbound_cells_links_the_younger_to_the_older() {
    let mut m = Wam::new();
    let a = m.new_unbound();
    let b = m.new_unbound();
    assert!(m.unify(a, b));
    assert_eq!(m.trail_length(), 1);
    let (da, _) = m.dereference(a);
    let (db, _) = m.dereference(b);
    assert_eq!(da, db);
    assert_eq!(da, a);
}
