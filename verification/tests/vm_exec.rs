use starlight_core::heap::{Cell, CellPayload, Heap, Value};
use starlight_core::vm::{step, run, opcode_of, Instr, StepResult, VmFault, VmState};
use starlight_core::opcodes::Opcode;

fn run_program(program: Vec<Instr>) -> (StepResult, VmState) {
    let heap = Heap::new();
    let mut s = VmState::new();
    let r = run(&program, &heap, &mut s, 1000);
    (r, s)
}

#[test]
fn int_addition_returns_sum() {
    let (r, _) = run_program(vec![
        Instr::PushInt(2),
        Instr::PushInt(3),
        Instr::Add,
        Instr::Ret,
    ]);
    assert_eq!(r, StepResult::Return(Value::Int(5)));
}

#[test]
fn string_addition_concatenates() {
    let (r, _) = run_program(vec![
        Instr::PushLiteral("a".to_string()),
        Instr::PushLiteral("b".to_string()),
        Instr::Add,
        Instr::Ret,
    ]);
    assert_eq!(r, StepResult::Return(Value::Str("ab".to_string())));
}

#[test]
fn second_write_to_const_binding_faults() {
    // DECL_CONST x; SET_VAR x; SET_VAR x: the first write initializes the
    // constant; the second write is the const violation, raised at the
    // write.
    let (r, _) = run_program(vec![
        Instr::PushEnv,
        Instr::DeclConst(9),
        Instr::PushInt(1),
        Instr::SetVar(9),
        Instr::PushInt(2),
        Instr::SetVar(9),
    ]);
    assert_eq!(r, StepResult::Fault(VmFault::ConstViolation));
}

#[test]
fn const_first_write_initializes() {
    let (r, _) = run_program(vec![
        Instr::PushEnv,
        Instr::DeclConst(9),
        Instr::PushInt(1),
        Instr::SetVar(9),
        Instr::GetVar(9),
        Instr::Ret,
    ]);
    assert_eq!(r, StepResult::Return(Value::Int(1)));
}

#[test]
fn let_binding_allows_rewrite() {
    let (r, _) = run_program(vec![
        Instr::PushEnv,
        Instr::DeclLet(9),
        Instr::PushInt(1),
        Instr::SetVar(9),
        Instr::PushInt(2),
        Instr::SetVar(9),
        Instr::GetVar(9),
        Instr::Ret,
    ]);
    assert_eq!(r, StepResult::Return(Value::Int(2)));
}

#[test]
fn inner_binding_shadows_outer() {
    let (r, _) = run_program(vec![
        Instr::PushEnv,
        Instr::DeclLet(9),
        Instr::PushInt(1),
        Instr::SetVar(9),
        Instr::PushEnv,
        Instr::DeclLet(9),
        Instr::PushInt(7),
        Instr::SetVar(9),
        Instr::GetVar(9),
        Instr::Ret,
    ]);
    assert_eq!(r, StepResult::Return(Value::Int(7)));
}

#[test]
fn throw_transfers_to_installed_handler() {
    // PUSH_CATCH L; THROW v: control moves to L with v on the stack for the
    // handler.
    let (r, _) = run_program(vec![
        Instr::PushCatch(4),
        Instr::PushInt(42),
        Instr::Throw,
        Instr::PushInt(0),
        Instr::Ret,
    ]);
    assert_eq!(r, StepResult::Return(Value::Int(42)));
}

#[test]
fn pop_catch_removes_handler() {
    let (r, _) = run_program(vec![
        Instr::PushCatch(5),
        Instr::PopCatch,
        Instr::PushInt(7),
        Instr::Throw,
        Instr::Ret,
        Instr::Ret,
    ]);
    assert_eq!(r, StepResult::Uncaught(Value::Int(7)));
}

#[test]
fn forin_yields_each_key_once_in_stable_order() {
    let mut heap = Heap::new();
    let obj = heap.allocate(
        Cell {
            payload: CellPayload::Object(vec![
                (1, Value::Int(10)),
                (2, Value::Int(20)),
                (3, Value::Int(30)),
            ]),
        },
    );
    let program = vec![
        Instr::ForinSetup,
        Instr::ForinEnumerate,
        Instr::ForinEnumerate,
        Instr::ForinEnumerate,
        Instr::ForinEnumerate,
        Instr::ForinLeave,
        Instr::PushInt(0),
        Instr::Ret,
    ];
    let mut s = VmState::with_stack(vec![Value::Obj(obj)]);
    let r = run(&program, &heap, &mut s, 1000);
    assert_eq!(r, StepResult::Return(Value::Int(0)));
    // Each key exactly once, in property order, then the exhaustion
    // sentinel.
    assert_eq!(
        s.stack,
        vec![
            Value::Int(1),
            Value::Int(2),
            Value::Int(3),
            Value::Undef,
            Value::Int(0),
        ]
    );
}

#[test]
fn forin_leave_releases_enumeration_state() {
    let mut heap = Heap::new();
    let obj = heap.allocate(Cell { payload: CellPayload::Object(vec![(1, Value::Null)]) });
    let program = vec![Instr::ForinSetup, Instr::ForinLeave, Instr::PushTrue, Instr::Ret];
    let mut s = VmState::with_stack(vec![Value::Obj(obj)]);
    let r = run(&program, &heap, &mut s, 1000);
    assert_eq!(r, StepResult::Return(Value::Boolean(true)));
    assert_eq!(s.iters.len(), 0);
}

#[test]
fn tailcalls_leave_frame_depth_unchanged() {
    // A chain of tail calls through a program never grows the call stack,
    // the observable frame-depth counter.
    let program = vec![
        Instr::PushInt(1),
        Instr::TailCall(3),
        Instr::Nop,
        Instr::TailCall(5),
        Instr::Nop,
        Instr::TailCall(7),
        Instr::Nop,
        Instr::Ret,
    ];
    let heap = Heap::new();
    let mut s = VmState::new();
    let r = run(&program, &heap, &mut s, 1000);
    assert_eq!(r, StepResult::Return(Value::Int(1)));
    assert_eq!(s.calls.len(), 0);
}

#[test]
fn call_grows_depth_where_tailcall_does_not() {
    let heap = Heap::new();
    let mut s = VmState::new();
    let depth0 = s.calls.len();
    let r1 = step(&mut s, &heap, &Instr::TailCall(5));
    assert_eq!(r1, StepResult::Next);
    assert_eq!(s.calls.len(), depth0);
    let r2 = step(&mut s, &heap, &Instr::Call(7));
    assert_eq!(r2, StepResult::Next);
    assert_eq!(s.calls.len(), depth0 + 1);
}

#[test]
fn call_and_ret_pair_restores_caller() {
    let program = vec![
        Instr::Call(3),
        Instr::Ret,
        Instr::Nop,
        Instr::PushInt(9),
        Instr::Ret,
    ];
    let (r, s) = {
        let heap = Heap::new();
        let mut s = VmState::new();
        let r = run(&program, &heap, &mut s, 1000);
        (r, s)
    };
    assert_eq!(r, StepResult::Return(Value::Int(9)));
    assert_eq!(s.calls.len(), 0);
}

#[test]
fn arithmetic_edge_cases_give_nan() {
    let (r, _) = run_program(vec![
        Instr::PushInt(i64::MAX),
        Instr::PushInt(1),
        Instr::Add,
        Instr::Ret,
    ]);
    assert_eq!(r, StepResult::Return(Value::Nan));
    let (r2, _) = run_program(vec![
        Instr::PushInt(i64::MIN),
        Instr::PushInt(1),
        Instr::Sub,
        Instr::Ret,
    ]);
    assert_eq!(r2, StepResult::Return(Value::Nan));
    let (r3, _) = run_program(vec![
        Instr::PushInt(i64::MIN),
        Instr::Neg,
        Instr::Ret,
    ]);
    assert_eq!(r3, StepResult::Return(Value::Nan));
    let (r4, _) = run_program(vec![
        Instr::PushInt(4),
        Instr::PushNull,
        Instr::Add,
        Instr::Ret,
    ]);
    assert_eq!(r4, StepResult::Return(Value::Nan));
}

#[test]
fn multiplication_and_comparison() {
    let (r, _) = run_program(vec![
        Instr::PushInt(6),
        Instr::PushInt(7),
        Instr::Mul,
        Instr::Ret,
    ]);
    assert_eq!(r, StepResult::Return(Value::Int(42)));
    let (r2, _) = run_program(vec![
        Instr::PushInt(2),
        Instr::PushInt(3),
        Instr::Less,
        Instr::Ret,
    ]);
    assert_eq!(r2, StepResult::Return(Value::Boolean(true)));
    let (r3, _) = run_program(vec![
        Instr::PushInt(3),
        Instr::PushInt(3),
        Instr::Less,
        Instr::Ret,
    ]);
    assert_eq!(r3, StepResult::Return(Value::Boolean(false)));
}

#[test]
fn strict_equality_does_not_coerce() {
    let (r, _) = run_program(vec![
        Instr::PushInt(0),
        Instr::PushFalse,
        Instr::StrictEq,
        Instr::Ret,
    ]);
    assert_eq!(r, StepResult::Return(Value::Boolean(false)));
    let (r2, _) = run_program(vec![
        Instr::PushNan,
        Instr::PushNan,
        Instr::StrictEq,
        Instr::Ret,
    ]);
    assert_eq!(r2, StepResult::Return(Value::Boolean(false)));
    let (r3, _) = run_program(vec![
        Instr::PushLiteral("x".to_string()),
        Instr::PushLiteral("x".to_string()),
        Instr::StrictEq,
        Instr::Ret,
    ]);
    assert_eq!(r3, StepResult::Return(Value::Boolean(true)));
}

#[test]
fn conditional_jumps_pop_their_condition() {
    let (r, _) = run_program(vec![
        Instr::PushTrue,
        Instr::JmpIfTrue(4),
        Instr::PushInt(0),
        Instr::Ret,
        Instr::PushInt(1),
        Instr::Ret,
    ]);
    assert_eq!(r, StepResult::Return(Value::Int(1)));
    let (r2, _) = run_program(vec![
        Instr::PushLiteral(String::new()),
        Instr::JmpIfFalse(4),
        Instr::PushInt(0),
        Instr::Ret,
        Instr::PushInt(2),
        Instr::Ret,
    ]);
    assert_eq!(r2, StepResult::Return(Value::Int(2)));
}

#[test]
fn logical_not_follows_truthiness() {
    let (r, _) = run_program(vec![Instr::PushNull, Instr::LogicalNot, Instr::Ret]);
    assert_eq!(r, StepResult::Return(Value::Boolean(true)));
    let (r2, _) = run_program(vec![
        Instr::PushLiteral("s".to_string()),
        Instr::LogicalNot,
        Instr::Ret,
    ]);
    assert_eq!(r2, StepResult::Return(Value::Boolean(false)));
}

#[test]
fn stack_shuffles() {
    let (r, _) = run_program(vec![
        Instr::PushInt(1),
        Instr::PushInt(2),
        Instr::Swap,
        Instr::Ret,
    ]);
    assert_eq!(r, StepResult::Return(Value::Int(1)));
    let (r2, _) = run_program(vec![
        Instr::PushInt(5),
        Instr::Dup,
        Instr::Add,
        Instr::Ret,
    ]);
    assert_eq!(r2, StepResult::Return(Value::Int(10)));
    let (r3, _) = run_program(vec![
        Instr::PushInt(8),
        Instr::PushInt(9),
        Instr::Pop,
        Instr::Ret,
    ]);
    assert_eq!(r3, StepResult::Return(Value::Int(8)));
}

#[test]
fn property_reads_by_statically_known_key() {
    let mut heap = Heap::new();
    let obj = heap.allocate(
        Cell {
            payload: CellPayload::Object(vec![
                (1, Value::Int(10)),
                (2, Value::Str("v".to_string())),
            ]),
        },
    );
    let program = vec![Instr::GetById(2), Instr::Ret];
    let mut s = VmState::with_stack(vec![Value::Obj(obj)]);
    let r = run(&program, &heap, &mut s, 100);
    assert_eq!(r, StepResult::Return(Value::Str("v".to_string())));

    let program2 = vec![Instr::GetById(9), Instr::Ret];
    let mut s2 = VmState::with_stack(vec![Value::Obj(obj)]);
    let r2 = run(&program2, &heap, &mut s2, 100);
    assert_eq!(r2, StepResult::Fault(VmFault::MissingProperty));

    // The try-get variant yields the sentinel instead of failing.
    let program3 = vec![Instr::TryGetById(9), Instr::Ret];
    let mut s3 = VmState::with_stack(vec![Value::Obj(obj)]);
    let r3 = run(&program3, &heap, &mut s3, 100);
    assert_eq!(r3, StepResult::Return(Value::Undef));
}

#[test]
fn engine_fault_variants() {
    let (r, _) = run_program(vec![Instr::Add]);
    assert_eq!(r, StepResult::Fault(VmFault::StackUnderflow));
    let (r2, _) = run_program(vec![Instr::PopEnv]);
    assert_eq!(r2, StepResult::Fault(VmFault::EnvUnderflow));
    let (r3, _) = run_program(vec![Instr::PopCatch]);
    assert_eq!(r3, StepResult::Fault(VmFault::HandlerUnderflow));
    let (r4, _) = run_program(vec![Instr::ForinEnumerate]);
    assert_eq!(r4, StepResult::Fault(VmFault::IterUnderflow));
    let (r5, _) = run_program(vec![Instr::GetVar(3), Instr::Ret]);
    assert_eq!(r5, StepResult::Fault(VmFault::UnboundVariable));
    let (r6, _) = run_program(vec![]);
    assert_eq!(r6, StepResult::Fault(VmFault::PcOutOfRange));
    let (r7, _) = run_program(vec![Instr::PushInt(1), Instr::GetById(1), Instr::Ret]);
    assert_eq!(r7, StepResult::Fault(VmFault::NotAnObject));
    let heap = Heap::new();
    let mut s = VmState::new();
    let r8 = run(&vec![Instr::Nop, Instr::Jmp(0)], &heap, &mut s, 10);
    assert_eq!(r8, StepResult::Fault(VmFault::OutOfFuel));
}

#[test]
fn forin_over_primitive_enumerates_nothing() {
    let (r, s) = {
        let heap = Heap::new();
        let program = vec![
            Instr::PushInt(3),
            Instr::ForinSetup,
            Instr::ForinEnumerate,
            Instr::Ret,
        ];
        let mut s = VmState::new();
        let r = run(&program, &heap, &mut s, 100);
        (r, s)
    };
    assert_eq!(r, StepResult::Return(Value::Undef));
    assert_eq!(s.iters.len(), 1);
}

#[test]
fn instructions_carry_their_opcode_tags() {
    assert_eq!(opcode_of(&Instr::PushInt(3)), Opcode::OP_PUSH_INT);
    assert_eq!(opcode_of(&Instr::Add), Opcode::OP_ADD);
    assert_eq!(opcode_of(&Instr::TailCall(0)), Opcode::OP_TAILCALL);
    assert_eq!(opcode_of(&Instr::ForinEnumerate), Opcode::OP_FORIN_ENUMERATE);
    assert_eq!(opcode_of(&Instr::Ret), Opcode::OP_RET);
}
