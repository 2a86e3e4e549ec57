//! Execution semantics of the bytecode instruction set.
//!
//! A frame's execution state is a program counter, an operand stack, a
//! lexical environment chain, a handler stack, a call stack and iterator
//! state. `step` executes one instruction and is proved equal to the
//! mathematical transition function `step_spec`; `run` iterates `step` under
//! explicit fuel and is proved equal to `run_spec`.
//!
//! The interpreter covers the stack, arithmetic, comparison, control-flow,
//! scoping, exception, property-read and iteration core of the instruction
//! set; numeric results that leave the signed 64-bit range come out as the
//! not-a-number value, and the addition of two strings concatenates them.

use vstd::prelude::*;
use crate::heap::{Heap, CellPayload, Value};
use crate::opcodes::Opcode;
use vstd::string::StringExecFns;

verus! {

/// Mathematical form of a runtime value.
#[verifier::ext_equal]
pub enum AbsVal {
    Undef,
    Null,
    Boolean(bool),
    Int(i64),
    Str(Seq<char>),
    Nan,
    Obj(int),
}

impl View for Value {
    type V = AbsVal;

    open spec fn view(&self) -> AbsVal {
        match self {
            Value::Undef => AbsVal::Undef,
            Value::Null => AbsVal::Null,
            Value::Boolean(b) => AbsVal::Boolean(*b),
            Value::Int(n) => AbsVal::Int(*n),
            Value::Str(s) => AbsVal::Str(s@),
            Value::Nan => AbsVal::Nan,
            Value::Obj(p) => AbsVal::Obj(p.index as int),
        }
    }
}

/// One variable binding: name, value, whether writes stay allowed, and
/// whether the initializing write has happened (a constant accepts exactly
/// one write).
pub struct Binding {
    pub name: u32,
    pub val: Value,
    pub mutable: bool,
    pub initialized: bool,
}

/// Mathematical form of a binding.
#[verifier::ext_equal]
pub struct AbsBinding {
    pub name: u32,
    pub val: AbsVal,
    pub mutable: bool,
    pub initialized: bool,
}

impl View for Binding {
    type V = AbsBinding;

    open spec fn view(&self) -> AbsBinding {
        AbsBinding {
            name: self.name,
            val: self.val@,
            mutable: self.mutable,
            initialized: self.initialized,
        }
    }
}

/// An installed exception handler: jump target and the frame state to
/// restore when a thrown value unwinds to it.
#[derive(Clone, Copy, PartialEq, Eq, Debug)]
pub struct Handler {
    pub target: usize,
    pub stack_len: usize,
    pub env_len: usize,
    pub call_len: usize,
}

/// Mathematical form of a handler.
#[verifier::ext_equal]
pub struct AbsHandler {
    pub target: int,
    pub stack_len: int,
    pub env_len: int,
    pub call_len: int,
}

impl View for Handler {
    type V = AbsHandler;

    open spec fn view(&self) -> AbsHandler {
        AbsHandler {
            target: self.target as int,
            stack_len: self.stack_len as int,
            env_len: self.env_len as int,
            call_len: self.call_len as int,
        }
    }
}

/// Enumeration state of one for-in loop: the keys in their stable order and
/// the position of the next one to yield.
pub struct ForinIter {
    pub keys: Vec<u32>,
    pub pos: usize,
}

/// Mathematical form of for-in state.
#[verifier::ext_equal]
pub struct AbsIter {
    pub keys: Seq<u32>,
    pub pos: int,
}

impl View for ForinIter {
    type V = AbsIter;

    open spec fn view(&self) -> AbsIter {
        AbsIter { keys: self.keys@, pos: self.pos as int }
    }
}

/// Per-frame execution state of the virtual machine.
pub struct VmState {
    pub pc: usize,
    pub stack: Vec<Value>,
    pub envs: Vec<Vec<Binding>>,
    pub handlers: Vec<Handler>,
    pub calls: Vec<usize>,
    pub iters: Vec<ForinIter>,
}

/// Mathematical form of the execution state.
#[verifier::ext_equal]
pub struct AbsState {
    pub pc: int,
    pub stack: Seq<AbsVal>,
    pub envs: Seq<Seq<AbsBinding>>,
    pub handlers: Seq<AbsHandler>,
    pub calls: Seq<int>,
    pub iters: Seq<AbsIter>,
}

/// The operand stack, as value views.
pub open spec fn val_seq(v: Vec<Value>) -> Seq<AbsVal> {
    v@.map_values(|x: Value| x@)
}

/// One environment, as binding views.
pub open spec fn env_view(e: Vec<Binding>) -> Seq<AbsBinding> {
    e@.map_values(|b: Binding| b@)
}

/// The environment chain, as environment views.
pub open spec fn chain_view(c: Vec<Vec<Binding>>) -> Seq<Seq<AbsBinding>> {
    c@.map_values(|e: Vec<Binding>| env_view(e))
}

/// The handler stack, as handler views.
pub open spec fn handler_seq(hs: Vec<Handler>) -> Seq<AbsHandler> {
    hs@.map_values(|h: Handler| h@)
}

/// The call stack, as return addresses.
pub open spec fn call_seq(cs: Vec<usize>) -> Seq<int> {
    cs@.map_values(|c: usize| c as int)
}

/// The iterator stack, as iterator views.
pub open spec fn iter_seq(is: Vec<ForinIter>) -> Seq<AbsIter> {
    is@.map_values(|it: ForinIter| it@)
}

impl View for VmState {
    type V = AbsState;

    open spec fn view(&self) -> AbsState {
        AbsState {
            pc: self.pc as int,
            stack: val_seq(self.stack),
            envs: chain_view(self.envs),
            handlers: handler_seq(self.handlers),
            calls: call_seq(self.calls),
            iters: iter_seq(self.iters),
        }
    }
}

/// An engine-invariant violation: unrecoverable, never catchable by
/// script-level handlers.
#[derive(Clone, Copy, PartialEq, Eq, Debug, Structural)]
pub enum VmFault {
    /// A write to a binding declared constant.
    ConstViolation,
    /// A read or write of a name with no binding in scope.
    UnboundVariable,
    /// An operand-stack operation on too few operands.
    StackUnderflow,
    /// Popping a lexical environment with none installed.
    EnvUnderflow,
    /// Popping an exception handler with none installed.
    HandlerUnderflow,
    /// Enumerating or leaving a for-in loop with none active.
    IterUnderflow,
    /// The program counter left the instruction sequence.
    PcOutOfRange,
    /// A property access on a value that is not a live heap object.
    NotAnObject,
    /// A plain property read of an absent property.
    MissingProperty,
    /// The fuel given to `run` ran out before the frame returned.
    OutOfFuel,
}

/// Mathematical outcome of one step.
#[verifier::ext_equal]
pub enum AbsOutcome {
    /// Execution continues in the given state.
    Next(AbsState),
    /// The frame returned this value.
    Return(AbsVal),
    /// A thrown value found no installed handler.
    Uncaught(AbsVal),
    /// An engine-invariant violation.
    Fault(VmFault),
}

/// Executable outcome of one step or run; `Next` means the state was
/// advanced in place.
#[derive(Debug, PartialEq, Eq)]
pub enum StepResult {
    Next,
    Return(Value),
    Uncaught(Value),
    Fault(VmFault),
}

/// The outcome a step result denotes, given the state after the step.
pub open spec fn abs_of(r: StepResult, s: AbsState) -> AbsOutcome {
    match r {
        StepResult::Next => AbsOutcome::Next(s),
        StepResult::Return(v) => AbsOutcome::Return(v@),
        StepResult::Uncaught(v) => AbsOutcome::Uncaught(v@),
        StepResult::Fault(f) => AbsOutcome::Fault(f),
    }
}

/// An instruction together with its operands, ready to execute.
pub enum Instr {
    Nop,
    Dup,
    Pop,
    Swap,
    PushLiteral(String),
    PushInt(i64),
    PushTrue,
    PushFalse,
    PushUndef,
    PushNull,
    PushNan,
    Add,
    Sub,
    Mul,
    Less,
    StrictEq,
    LogicalNot,
    Neg,
    Jmp(usize),
    JmpIfTrue(usize),
    JmpIfFalse(usize),
    Call(usize),
    TailCall(usize),
    Ret,
    PushEnv,
    PopEnv,
    DeclLet(u32),
    DeclConst(u32),
    GetVar(u32),
    SetVar(u32),
    Throw,
    PushCatch(usize),
    PopCatch,
    GetById(u32),
    TryGetById(u32),
    ForinSetup,
    ForinEnumerate,
    ForinLeave,
}

/// Host truthiness: false, zero, the empty string, null, undefined and
/// not-a-number are falsy; everything else is truthy.
pub open spec fn truthy_spec(v: AbsVal) -> bool {
    match v {
        AbsVal::Undef => false,
        AbsVal::Null => false,
        AbsVal::Boolean(b) => b,
        AbsVal::Int(n) => n != 0,
        AbsVal::Str(s) => s.len() != 0,
        AbsVal::Nan => false,
        AbsVal::Obj(_) => true,
    }
}

/// Addition: two integers add (out-of-range results are not-a-number), two
/// strings concatenate, any other pairing is not-a-number.
pub open spec fn add_spec(a: AbsVal, b: AbsVal) -> AbsVal {
    match (a, b) {
        (AbsVal::Int(x), AbsVal::Int(y)) => if i64::MIN <= x + y <= i64::MAX {
            AbsVal::Int((x + y) as i64)
        } else {
            AbsVal::Nan
        },
        (AbsVal::Str(x), AbsVal::Str(y)) => AbsVal::Str(x + y),
        _ => AbsVal::Nan,
    }
}

/// Subtraction on integers; out-of-range results and non-integer operands
/// are not-a-number.
pub open spec fn sub_spec(a: AbsVal, b: AbsVal) -> AbsVal {
    match (a, b) {
        (AbsVal::Int(x), AbsVal::Int(y)) => if i64::MIN <= x - y <= i64::MAX {
            AbsVal::Int((x - y) as i64)
        } else {
            AbsVal::Nan
        },
        _ => AbsVal::Nan,
    }
}

/// Multiplication on integers; out-of-range results and non-integer
/// operands are not-a-number.
pub open spec fn mul_spec(a: AbsVal, b: AbsVal) -> AbsVal {
    match (a, b) {
        (AbsVal::Int(x), AbsVal::Int(y)) => if i64::MIN <= x * y <= i64::MAX {
            AbsVal::Int((x * y) as i64)
        } else {
            AbsVal::Nan
        },
        _ => AbsVal::Nan,
    }
}

/// Relational comparison: defined on integers; every other pairing compares
/// false, as comparisons against not-a-number do.
pub open spec fn less_spec(a: AbsVal, b: AbsVal) -> bool {
    match (a, b) {
        (AbsVal::Int(x), AbsVal::Int(y)) => x < y,
        _ => false,
    }
}

/// Strict equality: no coercion; equal variants with equal contents, except
/// that not-a-number never equals anything, itself included.
pub open spec fn strict_eq_spec(a: AbsVal, b: AbsVal) -> bool {
    match (a, b) {
        (AbsVal::Undef, AbsVal::Undef) => true,
        (AbsVal::Null, AbsVal::Null) => true,
        (AbsVal::Boolean(x), AbsVal::Boolean(y)) => x == y,
        (AbsVal::Int(x), AbsVal::Int(y)) => x == y,
        (AbsVal::Str(x), AbsVal::Str(y)) => x == y,
        (AbsVal::Obj(x), AbsVal::Obj(y)) => x == y,
        _ => false,
    }
}

/// Unary minus on integers; the minimum integer and non-integer operands
/// give not-a-number.
pub open spec fn neg_spec(a: AbsVal) -> AbsVal {
    match a {
        AbsVal::Int(x) => if x == i64::MIN {
            AbsVal::Nan
        } else {
            AbsVal::Int((-x) as i64)
        },
        _ => AbsVal::Nan,
    }
}

/// Innermost binding of name `x` in one environment, as its index.
pub open spec fn find_in_env(env: Seq<AbsBinding>, x: u32) -> Option<int>
    decreases env.len(),
{
    if env.len() == 0 {
        None
    } else if env.last().name == x {
        Some(env.len() - 1)
    } else {
        find_in_env(env.drop_last(), x)
    }
}

/// Innermost binding of name `x` in the environment chain, as environment
/// and binding indices.
pub open spec fn find_binding(envs: Seq<Seq<AbsBinding>>, x: u32) -> Option<(int, int)>
    decreases envs.len(),
{
    if envs.len() == 0 {
        None
    } else {
        match find_in_env(envs.last(), x) {
            Some(bi) => Some(((envs.len() - 1) as int, bi)),
            None => find_binding(envs.drop_last(), x),
        }
    }
}

/// The keys of a property list, in stable order.
pub open spec fn keys_view(props: Vec<(u32, Value)>) -> Seq<u32> {
    props@.map_values(|kv: (u32, Value)| kv.0)
}

/// One property, as key and value view.
pub open spec fn prop_view(kv: (u32, Value)) -> (u32, AbsVal) {
    (kv.0, kv.1@)
}

/// A property list, as key and value views.
pub open spec fn props_view(props: Vec<(u32, Value)>) -> Seq<(u32, AbsVal)> {
    props@.map_values(|kv: (u32, Value)| prop_view(kv))
}

/// The enumerable keys of the object at cell `oi`, in their stable
/// (property-list) order; nothing when `oi` is not a live object cell.
pub open spec fn obj_keys_spec(h: Heap, oi: int) -> Option<Seq<u32>> {
    if h.live(oi) {
        match h.cell_at(oi).payload {
            CellPayload::Object(props) => Some(keys_view(props)),
            _ => None,
        }
    } else {
        None
    }
}

/// The properties of the object at cell `oi`, keys and value views.
pub open spec fn obj_props_spec(h: Heap, oi: int) -> Option<Seq<(u32, AbsVal)>> {
    if h.live(oi) {
        match h.cell_at(oi).payload {
            CellPayload::Object(props) => Some(props_view(props)),
            _ => None,
        }
    } else {
        None
    }
}

/// First property with key `x`, as its index.
pub open spec fn find_prop(props: Seq<(u32, AbsVal)>, x: u32) -> Option<int>
    decreases props.len(),
{
    if props.len() == 0 {
        None
    } else if props.first().0 == x {
        Some(0)
    } else {
        match find_prop(props.drop_first(), x) {
            Some(i) => Some(i + 1),
            None => None,
        }
    }
}

/// The transition function: the meaning of one instruction in a given state
/// against a given heap. Total: states the instruction set's contract for
/// every state, with engine-invariant violations as `Fault`.
pub open spec fn step_spec(s: AbsState, h: Heap, instr: Instr) -> AbsOutcome {
    let pc1 = s.pc + 1;
    match instr {
        Instr::Nop => AbsOutcome::Next(AbsState { pc: pc1, ..s }),
        Instr::Dup => if s.stack.len() == 0 {
            AbsOutcome::Fault(VmFault::StackUnderflow)
        } else {
            AbsOutcome::Next(AbsState { pc: pc1, stack: s.stack.push(s.stack.last()), ..s })
        },
        Instr::Pop => if s.stack.len() == 0 {
            AbsOutcome::Fault(VmFault::StackUnderflow)
        } else {
            AbsOutcome::Next(AbsState { pc: pc1, stack: s.stack.drop_last(), ..s })
        },
        Instr::Swap => if s.stack.len() < 2 {
            AbsOutcome::Fault(VmFault::StackUnderflow)
        } else {
            let a = s.stack.last();
            let b = s.stack[s.stack.len() - 2];
            AbsOutcome::Next(
                AbsState {
                    pc: pc1,
                    stack: s.stack.update(s.stack.len() - 2, a).update(s.stack.len() - 1, b),
                    ..s
                },
            )
        },
        Instr::PushLiteral(lit) => AbsOutcome::Next(
            AbsState { pc: pc1, stack: s.stack.push(AbsVal::Str(lit@)), ..s },
        ),
        Instr::PushInt(n) => AbsOutcome::Next(
            AbsState { pc: pc1, stack: s.stack.push(AbsVal::Int(n)), ..s },
        ),
        Instr::PushTrue => AbsOutcome::Next(
            AbsState { pc: pc1, stack: s.stack.push(AbsVal::Boolean(true)), ..s },
        ),
        Instr::PushFalse => AbsOutcome::Next(
            AbsState { pc: pc1, stack: s.stack.push(AbsVal::Boolean(false)), ..s },
        ),
        Instr::PushUndef => AbsOutcome::Next(
            AbsState { pc: pc1, stack: s.stack.push(AbsVal::Undef), ..s },
        ),
        Instr::PushNull => AbsOutcome::Next(
            AbsState { pc: pc1, stack: s.stack.push(AbsVal::Null), ..s },
        ),
        Instr::PushNan => AbsOutcome::Next(
            AbsState { pc: pc1, stack: s.stack.push(AbsVal::Nan), ..s },
        ),
        Instr::Add => if s.stack.len() < 2 {
            AbsOutcome::Fault(VmFault::StackUnderflow)
        } else {
            let b = s.stack.last();
            let a = s.stack[s.stack.len() - 2];
            AbsOutcome::Next(
                AbsState {
                    pc: pc1,
                    stack: s.stack.drop_last().drop_last().push(add_spec(a, b)),
                    ..s
                },
            )
        },
        Instr::Sub => if s.stack.len() < 2 {
            AbsOutcome::Fault(VmFault::StackUnderflow)
        } else {
            let b = s.stack.last();
            let a = s.stack[s.stack.len() - 2];
            AbsOutcome::Next(
                AbsState {
                    pc: pc1,
                    stack: s.stack.drop_last().drop_last().push(sub_spec(a, b)),
                    ..s
                },
            )
        },
        Instr::Mul => if s.stack.len() < 2 {
            AbsOutcome::Fault(VmFault::StackUnderflow)
        } else {
            let b = s.stack.last();
            let a = s.stack[s.stack.len() - 2];
            AbsOutcome::Next(
                AbsState {
                    pc: pc1,
                    stack: s.stack.drop_last().drop_last().push(mul_spec(a, b)),
                    ..s
                },
            )
        },
        Instr::Less => if s.stack.len() < 2 {
            AbsOutcome::Fault(VmFault::StackUnderflow)
        } else {
            let b = s.stack.last();
            let a = s.stack[s.stack.len() - 2];
            AbsOutcome::Next(
                AbsState {
                    pc: pc1,
                    stack: s.stack.drop_last().drop_last().push(
                        AbsVal::Boolean(less_spec(a, b)),
                    ),
                    ..s
                },
            )
        },
        Instr::StrictEq => if s.stack.len() < 2 {
            AbsOutcome::Fault(VmFault::StackUnderflow)
        } else {
            let b = s.stack.last();
            let a = s.stack[s.stack.len() - 2];
            AbsOutcome::Next(
                AbsState {
                    pc: pc1,
                    stack: s.stack.drop_last().drop_last().push(
                        AbsVal::Boolean(strict_eq_spec(a, b)),
                    ),
                    ..s
                },
            )
        },
        Instr::LogicalNot => if s.stack.len() == 0 {
            AbsOutcome::Fault(VmFault::StackUnderflow)
        } else {
            AbsOutcome::Next(
                AbsState {
                    pc: pc1,
                    stack: s.stack.drop_last().push(
                        AbsVal::Boolean(!truthy_spec(s.stack.last())),
                    ),
                    ..s
                },
            )
        },
        Instr::Neg => if s.stack.len() == 0 {
            AbsOutcome::Fault(VmFault::StackUnderflow)
        } else {
            AbsOutcome::Next(
                AbsState {
                    pc: pc1,
                    stack: s.stack.drop_last().push(neg_spec(s.stack.last())),
                    ..s
                },
            )
        },
        Instr::Jmp(t) => AbsOutcome::Next(AbsState { pc: t as int, ..s }),
        Instr::JmpIfTrue(t) => if s.stack.len() == 0 {
            AbsOutcome::Fault(VmFault::StackUnderflow)
        } else {
            AbsOutcome::Next(
                AbsState {
                    pc: if truthy_spec(s.stack.last()) {
                        t as int
                    } else {
                        pc1
                    },
                    stack: s.stack.drop_last(),
                    ..s
                },
            )
        },
        Instr::JmpIfFalse(t) => if s.stack.len() == 0 {
            AbsOutcome::Fault(VmFault::StackUnderflow)
        } else {
            AbsOutcome::Next(
                AbsState {
                    pc: if truthy_spec(s.stack.last()) {
                        pc1
                    } else {
                        t as int
                    },
                    stack: s.stack.drop_last(),
                    ..s
                },
            )
        },
        Instr::Call(t) => AbsOutcome::Next(
            AbsState { pc: t as int, calls: s.calls.push(pc1), ..s },
        ),
        Instr::TailCall(t) => AbsOutcome::Next(AbsState { pc: t as int, ..s }),
        Instr::Ret => if s.stack.len() == 0 {
            AbsOutcome::Fault(VmFault::StackUnderflow)
        } else if s.calls.len() == 0 {
            AbsOutcome::Return(s.stack.last())
        } else {
            AbsOutcome::Next(AbsState { pc: s.calls.last(), calls: s.calls.drop_last(), ..s })
        },
        Instr::PushEnv => AbsOutcome::Next(
            AbsState { pc: pc1, envs: s.envs.push(Seq::empty()), ..s },
        ),
        Instr::PopEnv => if s.envs.len() == 0 {
            AbsOutcome::Fault(VmFault::EnvUnderflow)
        } else {
            AbsOutcome::Next(AbsState { pc: pc1, envs: s.envs.drop_last(), ..s })
        },
        Instr::DeclLet(x) => if s.envs.len() == 0 {
            AbsOutcome::Fault(VmFault::EnvUnderflow)
        } else {
            AbsOutcome::Next(
                AbsState {
                    pc: pc1,
                    envs: s.envs.update(
                        s.envs.len() - 1,
                        s.envs.last().push(
                            AbsBinding {
                                name: x,
                                val: AbsVal::Undef,
                                mutable: true,
                                initialized: true,
                            },
                        ),
                    ),
                    ..s
                },
            )
        },
        Instr::DeclConst(x) => if s.envs.len() == 0 {
            AbsOutcome::Fault(VmFault::EnvUnderflow)
        } else {
            AbsOutcome::Next(
                AbsState {
                    pc: pc1,
                    envs: s.envs.update(
                        s.envs.len() - 1,
                        s.envs.last().push(
                            AbsBinding {
                                name: x,
                                val: AbsVal::Undef,
                                mutable: false,
                                initialized: false,
                            },
                        ),
                    ),
                    ..s
                },
            )
        },
        Instr::GetVar(x) => match find_binding(s.envs, x) {
            None => AbsOutcome::Fault(VmFault::UnboundVariable),
            Some((ei, bi)) => AbsOutcome::Next(
                AbsState { pc: pc1, stack: s.stack.push(s.envs[ei][bi].val), ..s },
            ),
        },
        Instr::SetVar(x) => if s.stack.len() == 0 {
            AbsOutcome::Fault(VmFault::StackUnderflow)
        } else {
            match find_binding(s.envs, x) {
                None => AbsOutcome::Fault(VmFault::UnboundVariable),
                Some((ei, bi)) => if !s.envs[ei][bi].mutable && s.envs[ei][bi].initialized {
                    AbsOutcome::Fault(VmFault::ConstViolation)
                } else {
                    AbsOutcome::Next(
                        AbsState {
                            pc: pc1,
                            stack: s.stack.drop_last(),
                            envs: s.envs.update(
                                ei,
                                s.envs[ei].update(
                                    bi,
                                    AbsBinding {
                                        name: x,
                                        val: s.stack.last(),
                                        mutable: s.envs[ei][bi].mutable,
                                        initialized: true,
                                    },
                                ),
                            ),
                            ..s
                        },
                    )
                },
            }
        },
        Instr::Throw => if s.stack.len() == 0 {
            AbsOutcome::Fault(VmFault::StackUnderflow)
        } else if s.handlers.len() == 0 {
            AbsOutcome::Uncaught(s.stack.last())
        } else {
            let hd = s.handlers.last();
            if 0 <= hd.stack_len <= s.stack.len() - 1 && 0 <= hd.env_len <= s.envs.len() && 0
                <= hd.call_len <= s.calls.len() {
                AbsOutcome::Next(
                    AbsState {
                        pc: hd.target,
                        stack: s.stack.take(hd.stack_len).push(s.stack.last()),
                        envs: s.envs.take(hd.env_len),
                        handlers: s.handlers.drop_last(),
                        calls: s.calls.take(hd.call_len),
                        ..s
                    },
                )
            } else {
                AbsOutcome::Fault(VmFault::StackUnderflow)
            }
        },
        Instr::PushCatch(t) => AbsOutcome::Next(
            AbsState {
                pc: pc1,
                handlers: s.handlers.push(
                    AbsHandler {
                        target: t as int,
                        stack_len: s.stack.len() as int,
                        env_len: s.envs.len() as int,
                        call_len: s.calls.len() as int,
                    },
                ),
                ..s
            },
        ),
        Instr::PopCatch => if s.handlers.len() == 0 {
            AbsOutcome::Fault(VmFault::HandlerUnderflow)
        } else {
            AbsOutcome::Next(AbsState { pc: pc1, handlers: s.handlers.drop_last(), ..s })
        },
        Instr::GetById(x) => if s.stack.len() == 0 {
            AbsOutcome::Fault(VmFault::StackUnderflow)
        } else {
            match s.stack.last() {
                AbsVal::Obj(oi) => match obj_props_spec(h, oi) {
                    None => AbsOutcome::Fault(VmFault::NotAnObject),
                    Some(props) => match find_prop(props, x) {
                        None => AbsOutcome::Fault(VmFault::MissingProperty),
                        Some(pi) => AbsOutcome::Next(
                            AbsState {
                                pc: pc1,
                                stack: s.stack.drop_last().push(props[pi].1),
                                ..s
                            },
                        ),
                    },
                },
                _ => AbsOutcome::Fault(VmFault::NotAnObject),
            }
        },
        Instr::TryGetById(x) => if s.stack.len() == 0 {
            AbsOutcome::Fault(VmFault::StackUnderflow)
        } else {
            match s.stack.last() {
                AbsVal::Obj(oi) => match obj_props_spec(h, oi) {
                    None => AbsOutcome::Fault(VmFault::NotAnObject),
                    Some(props) => match find_prop(props, x) {
                        None => AbsOutcome::Next(
                            AbsState {
                                pc: pc1,
                                stack: s.stack.drop_last().push(AbsVal::Undef),
                                ..s
                            },
                        ),
                        Some(pi) => AbsOutcome::Next(
                            AbsState {
                                pc: pc1,
                                stack: s.stack.drop_last().push(props[pi].1),
                                ..s
                            },
                        ),
                    },
                },
                _ => AbsOutcome::Fault(VmFault::NotAnObject),
            }
        },
        Instr::ForinSetup => if s.stack.len() == 0 {
            AbsOutcome::Fault(VmFault::StackUnderflow)
        } else {
            match s.stack.last() {
                AbsVal::Obj(oi) => match obj_keys_spec(h, oi) {
                    None => AbsOutcome::Fault(VmFault::NotAnObject),
                    Some(keys) => AbsOutcome::Next(
                        AbsState {
                            pc: pc1,
                            stack: s.stack.drop_last(),
                            iters: s.iters.push(AbsIter { keys, pos: 0 }),
                            ..s
                        },
                    ),
                },
                _ => AbsOutcome::Next(
                    AbsState {
                        pc: pc1,
                        stack: s.stack.drop_last(),
                        iters: s.iters.push(AbsIter { keys: Seq::empty(), pos: 0 }),
                        ..s
                    },
                ),
            }
        },
        Instr::ForinEnumerate => if s.iters.len() == 0 {
            AbsOutcome::Fault(VmFault::IterUnderflow)
        } else {
            let it = s.iters.last();
            if it.pos < it.keys.len() {
                AbsOutcome::Next(
                    AbsState {
                        pc: pc1,
                        stack: s.stack.push(AbsVal::Int(it.keys[it.pos] as i64)),
                        iters: s.iters.update(
                            s.iters.len() - 1,
                            AbsIter { keys: it.keys, pos: it.pos + 1 },
                        ),
                        ..s
                    },
                )
            } else {
                AbsOutcome::Next(AbsState { pc: pc1, stack: s.stack.push(AbsVal::Undef), ..s })
            }
        },
        Instr::ForinLeave => if s.iters.len() == 0 {
            AbsOutcome::Fault(VmFault::IterUnderflow)
        } else {
            AbsOutcome::Next(AbsState { pc: pc1, iters: s.iters.drop_last(), ..s })
        },
    }
}

/// The observable call-frame depth of a state: the frames on the call
/// stack plus the running one.
pub open spec fn frame_depth(s: AbsState) -> int {
    s.calls.len() as int + 1
}

/// A tail call reuses the running frame: the observable call-frame depth is
/// unchanged, where an ordinary call grows it by one.
pub proof fn lemma_tailcall_keeps_depth(s: AbsState, h: Heap, t: usize, u: usize)
    ensures
        step_spec(s, h, Instr::TailCall(t)) matches AbsOutcome::Next(s2) && frame_depth(s2)
            == frame_depth(s),
        step_spec(s, h, Instr::Call(u)) matches AbsOutcome::Next(s3) && frame_depth(s3)
            == frame_depth(s) + 1,
{
}

/// Running a frame: fetch and execute until it returns, a thrown value
/// escapes, an engine fault arises, or the fuel is exhausted.
pub open spec fn run_spec(program: Seq<Instr>, h: Heap, s: AbsState, fuel: nat) -> AbsOutcome
    decreases fuel,
{
    if fuel == 0 {
        AbsOutcome::Fault(VmFault::OutOfFuel)
    } else if !(0 <= s.pc < program.len()) {
        AbsOutcome::Fault(VmFault::PcOutOfRange)
    } else {
        match step_spec(s, h, program[s.pc]) {
            AbsOutcome::Next(s2) => run_spec(program, h, s2, (fuel - 1) as nat),
            o => o,
        }
    }
}

/// Duplicate a runtime value: same mathematical value, fresh storage.
pub fn value_dup(v: &Value) -> (r: Value)
    ensures
        r@ == v@,
{
    match v {
        Value::Undef => Value::Undef,
        Value::Null => Value::Null,
        Value::Boolean(b) => Value::Boolean(*b),
        Value::Int(n) => Value::Int(*n),
        Value::Str(s) => Value::Str(s.clone()),
        Value::Nan => Value::Nan,
        Value::Obj(p) => Value::Obj(*p),
    }
}

/// Host truthiness of a value.
pub fn truthy(v: &Value) -> (r: bool)
    ensures
        r == truthy_spec(v@),
{
    match v {
        Value::Undef => false,
        Value::Null => false,
        Value::Boolean(b) => *b,
        Value::Int(n) => *n != 0,
        Value::Str(s) => !s.as_str().is_empty(),
        Value::Nan => false,
        Value::Obj(_) => true,
    }
}

/// Strict equality of two values: no coercion.
pub fn strict_eq(a: &Value, b: &Value) -> (r: bool)
    ensures
        r == strict_eq_spec(a@, b@),
{
    match (a, b) {
        (Value::Undef, Value::Undef) => true,
        (Value::Null, Value::Null) => true,
        (Value::Boolean(x), Value::Boolean(y)) => *x == *y,
        (Value::Int(x), Value::Int(y)) => *x == *y,
        (Value::Str(x), Value::Str(y)) => *x == *y,
        (Value::Obj(x), Value::Obj(y)) => x.index == y.index,
        _ => false,
    }
}

/// Addition with the host coercion this set defines: integer addition or
/// string concatenation.
pub fn add_values(a: Value, b: Value) -> (r: Value)
    ensures
        r@ == add_spec(a@, b@),
{
    match (a, b) {
        (Value::Int(x), Value::Int(y)) => match x.checked_add(y) {
            Some(z) => Value::Int(z),
            None => Value::Nan,
        },
        (Value::Str(x), Value::Str(y)) => Value::Str(x.concat(y.as_str())),
        _ => Value::Nan,
    }
}

/// Subtraction on integers.
pub fn sub_values(a: Value, b: Value) -> (r: Value)
    ensures
        r@ == sub_spec(a@, b@),
{
    match (a, b) {
        (Value::Int(x), Value::Int(y)) => match x.checked_sub(y) {
            Some(z) => Value::Int(z),
            None => Value::Nan,
        },
        _ => Value::Nan,
    }
}

/// Multiplication on integers.
pub fn mul_values(a: Value, b: Value) -> (r: Value)
    ensures
        r@ == mul_spec(a@, b@),
{
    match (a, b) {
        (Value::Int(x), Value::Int(y)) => match x.checked_mul(y) {
            Some(z) => Value::Int(z),
            None => Value::Nan,
        },
        _ => Value::Nan,
    }
}

/// Unary minus on integers.
pub fn neg_value(a: Value) -> (r: Value)
    ensures
        r@ == neg_spec(a@),
{
    match a {
        Value::Int(x) => if x == i64::MIN {
            Value::Nan
        } else {
            Value::Int(-x)
        },
        _ => Value::Nan,
    }
}

fn pop_value(stack: &mut Vec<Value>) -> (r: Value)
    requires
        old(stack)@.len() > 0,
    ensures
        final(stack)@ == old(stack)@.drop_last(),
        r == old(stack)@.last(),
{
    let ro = stack.pop();
    match ro {
        Some(v) => v,
        None => {
            proof {
                assert(false);
            }
            Value::Undef
        },
    }
}

/// Duplicate a binding: same mathematical binding, fresh storage.
fn binding_dup(b: &Binding) -> (r: Binding)
    ensures
        r@ == b@,
{
    Binding {
        name: b.name,
        val: value_dup(&b.val),
        mutable: b.mutable,
        initialized: b.initialized,
    }
}

fn rebuild_env(env: &Vec<Binding>, bi: usize, b: Binding) -> (r: Vec<Binding>)
    requires
        (bi as int) < env@.len(),
    ensures
        env_view(r) =~= env_view(*env).update(bi as int, b@),
{
    let ghost bv = b@;
    let mut r: Vec<Binding> = Vec::new();
    let mut k: usize = 0;
    let n = env.len();
    let mut slot: Option<Binding> = Some(b);
    while k < n
        invariant
            k <= n,
            n == env@.len(),
            (bi as int) < n,
            r@.len() == k,
            forall|m: int| 0 <= m < k && m != bi ==> (#[trigger] r@[m])@ == env_view(*env)[m],
            k > bi ==> r@[bi as int]@ == bv,
            k <= bi ==> (slot matches Some(bb) && bb@ == bv),
        decreases n - k,
    {
        if k == bi {
            let bb = match slot {
                Some(bb) => bb,
                None => {
                    proof {
                        assert(false);
                    }
                    Binding { name: 0, val: Value::Undef, mutable: true, initialized: true }
                },
            };
            slot = None;
            r.push(bb);
        } else {
            r.push(binding_dup(&env[k]));
        }
        k = k + 1;
    }
    r
}

fn find_in_env_exec(env: &Vec<Binding>, x: u32) -> (r: Option<usize>)
    ensures
        (match r {
            Some(bi) => (bi as int) < env@.len() && find_in_env(env_view(*env), x) == Some(
                bi as int,
            ),
            None => find_in_env(env_view(*env), x) is None,
        }),
{
    let ghost ev = env_view(*env);
    let mut k = env.len();
    proof {
        assert(ev.take(k as int) =~= ev);
    }
    while k > 0
        invariant
            k <= env@.len(),
            ev == env_view(*env),
            ev.len() == env@.len(),
            find_in_env(ev, x) == find_in_env(ev.take(k as int), x),
        decreases k,
    {
        k = k - 1;
        proof {
            assert(ev.take(k as int + 1).drop_last() =~= ev.take(k as int));
            assert(ev.take(k as int + 1).last() == ev[k as int]);
            assert(ev[k as int] == env@[k as int]@);
        }
        if env[k].name == x {
            proof {
                assert(find_in_env(ev.take(k as int + 1), x) == Some(k as int));
            }
            return Some(k);
        }
    }
    proof {
        assert(ev.take(0) =~= Seq::<AbsBinding>::empty());
    }
    None
}

fn find_binding_exec(envs: &Vec<Vec<Binding>>, x: u32) -> (r: Option<(usize, usize)>)
    ensures
        (match r {
            Some(p) => (p.0 as int) < envs@.len() && (p.1 as int) < env_view(
                envs@[p.0 as int],
            ).len() && find_binding(chain_view(*envs), x) == Some((p.0 as int, p.1 as int)),
            None => find_binding(chain_view(*envs), x) is None,
        }),
{
    let ghost cv = chain_view(*envs);
    let mut k = envs.len();
    proof {
        assert(cv.take(k as int) =~= cv);
    }
    while k > 0
        invariant
            k <= envs@.len(),
            cv == chain_view(*envs),
            cv.len() == envs@.len(),
            find_binding(cv, x) == find_binding(cv.take(k as int), x),
        decreases k,
    {
        k = k - 1;
        proof {
            assert(cv.take(k as int + 1).drop_last() =~= cv.take(k as int));
            assert(cv.take(k as int + 1).last() == cv[k as int]);
            assert(cv[k as int] == env_view(envs@[k as int]));
        }
        let fr = find_in_env_exec(&envs[k], x);
        match fr {
            Some(bi) => {
                proof {
                    assert(find_binding(cv.take(k as int + 1), x) == Some((k as int, bi as int)));
                }
                return Some((k, bi));
            },
            None => {},
        }
    }
    proof {
        assert(cv.take(0) =~= Seq::<Seq<AbsBinding>>::empty());
    }
    None
}

proof fn lemma_find_prop_hit(props: Seq<(u32, AbsVal)>, x: u32, k: int)
    requires
        0 <= k < props.len(),
        props[k].0 == x,
        forall|m: int| 0 <= m < k ==> (#[trigger] props[m]).0 != x,
    ensures
        find_prop(props, x) == Some(k),
    decreases props.len(),
{
    if k == 0 {
    } else {
        assert(props.first().0 != x);
        lemma_find_prop_hit(props.drop_first(), x, k - 1);
    }
}

proof fn lemma_find_prop_miss(props: Seq<(u32, AbsVal)>, x: u32)
    requires
        forall|m: int| 0 <= m < props.len() ==> (#[trigger] props[m]).0 != x,
    ensures
        find_prop(props, x) is None,
    decreases props.len(),
{
    if props.len() > 0 {
        lemma_find_prop_miss(props.drop_first(), x);
    }
}

fn find_prop_exec(props: &Vec<(u32, Value)>, x: u32) -> (r: Option<usize>)
    ensures
        (match r {
            Some(k) => (k as int) < props@.len() && find_prop(props_view(*props), x) == Some(
                k as int,
            ),
            None => find_prop(props_view(*props), x) is None,
        }),
{
    let ghost pv = props_view(*props);
    let n = props.len();
    let mut k: usize = 0;
    while k < n
        invariant
            k <= n,
            n == props@.len(),
            pv == props_view(*props),
            pv.len() == n,
            forall|m: int| 0 <= m < k ==> (#[trigger] pv[m]).0 != x,
        decreases n - k,
    {
        proof {
            assert(pv[k as int] == prop_view(props@[k as int]));
        }
        if props[k].0 == x {
            proof {
                lemma_find_prop_hit(pv, x, k as int);
            }
            return Some(k);
        }
        k = k + 1;
    }
    proof {
        lemma_find_prop_miss(pv, x);
    }
    None
}

fn object_keys(props: &Vec<(u32, Value)>) -> (r: Vec<u32>)
    ensures
        r@ == keys_view(*props),
{
    let n = props.len();
    let mut r: Vec<u32> = Vec::new();
    let mut k: usize = 0;
    while k < n
        invariant
            k <= n,
            n == props@.len(),
            r@.len() == k,
            forall|m: int| 0 <= m < k ==> #[trigger] r@[m] == props@[m].0,
        decreases n - k,
    {
        r.push(props[k].0);
        k = k + 1;
    }
    proof {
        assert(r@ =~= keys_view(*props));
    }
    r
}

impl VmState {
    /// A fresh frame at program counter zero with the given initial operand
    /// stack.
    pub fn with_stack(stack: Vec<Value>) -> (r: VmState)
        ensures
            r@.pc == 0,
            r@.stack == val_seq(stack),
            r@.envs =~= Seq::<Seq<AbsBinding>>::empty(),
            r@.handlers =~= Seq::<AbsHandler>::empty(),
            r@.calls =~= Seq::<int>::empty(),
            r@.iters =~= Seq::<AbsIter>::empty(),
    {
        let r = VmState {
            pc: 0,
            stack,
            envs: Vec::new(),
            handlers: Vec::new(),
            calls: Vec::new(),
            iters: Vec::new(),
        };
        proof {
            assert(r@.envs =~= Seq::<Seq<AbsBinding>>::empty());
            assert(r@.handlers =~= Seq::<AbsHandler>::empty());
            assert(r@.calls =~= Seq::<int>::empty());
            assert(r@.iters =~= Seq::<AbsIter>::empty());
        }
        r
    }

    /// A fresh frame with an empty operand stack.
    pub fn new() -> (r: VmState)
        ensures
            r@.pc == 0,
            r@.stack =~= Seq::<AbsVal>::empty(),
            r@.envs =~= Seq::<Seq<AbsBinding>>::empty(),
            r@.handlers =~= Seq::<AbsHandler>::empty(),
            r@.calls =~= Seq::<int>::empty(),
            r@.iters =~= Seq::<AbsIter>::empty(),
    {
        let r = VmState::with_stack(Vec::new());
        proof {
            assert(r@.stack =~= Seq::<AbsVal>::empty());
        }
        r
    }
}

/// Execute one instruction in place: proved to realize exactly `step_spec`.
#[verifier::rlimit(100)]
pub fn step(s: &mut VmState, heap: &Heap, instr: &Instr) -> (r: StepResult)
    requires
        old(s).pc < usize::MAX,
    ensures
        abs_of(r, final(s)@) == step_spec(old(s)@, *heap, *instr),
{
    match instr {
        Instr::Nop => {
            s.pc = s.pc + 1;
            proof {
                assert(abs_of(StepResult::Next, s@) =~~= step_spec(old(s)@, *heap, *instr));
            }
            StepResult::Next
        },
        Instr::Dup => {
            if s.stack.len() == 0 {
                return StepResult::Fault(VmFault::StackUnderflow);
            }
            let t = value_dup(&s.stack[s.stack.len() - 1]);
            s.stack.push(t);
            s.pc = s.pc + 1;
            proof {
                assert(abs_of(StepResult::Next, s@) =~~= step_spec(old(s)@, *heap, *instr));
            }
            StepResult::Next
        },
        Instr::Pop => {
            if s.stack.len() == 0 {
                return StepResult::Fault(VmFault::StackUnderflow);
            }
            let _ = pop_value(&mut s.stack);
            s.pc = s.pc + 1;
            proof {
                assert(abs_of(StepResult::Next, s@) =~~= step_spec(old(s)@, *heap, *instr));
            }
            StepResult::Next
        },
        Instr::Swap => {
            if s.stack.len() < 2 {
                return StepResult::Fault(VmFault::StackUnderflow);
            }
            let a = pop_value(&mut s.stack);
            let b = pop_value(&mut s.stack);
            s.stack.push(a);
            s.stack.push(b);
            s.pc = s.pc + 1;
            proof {
                assert(abs_of(StepResult::Next, s@) =~~= step_spec(old(s)@, *heap, *instr));
            }
            StepResult::Next
        },
        Instr::PushLiteral(lit) => {
            s.stack.push(Value::Str(lit.clone()));
            s.pc = s.pc + 1;
            proof {
                assert(abs_of(StepResult::Next, s@) =~~= step_spec(old(s)@, *heap, *instr));
            }
            StepResult::Next
        },
        Instr::PushInt(n) => {
            s.stack.push(Value::Int(*n));
            s.pc = s.pc + 1;
            proof {
                assert(abs_of(StepResult::Next, s@) =~~= step_spec(old(s)@, *heap, *instr));
            }
            StepResult::Next
        },
        Instr::PushTrue => {
            s.stack.push(Value::Boolean(true));
            s.pc = s.pc + 1;
            proof {
                assert(abs_of(StepResult::Next, s@) =~~= step_spec(old(s)@, *heap, *instr));
            }
            StepResult::Next
        },
        Instr::PushFalse => {
            s.stack.push(Value::Boolean(false));
            s.pc = s.pc + 1;
            proof {
                assert(abs_of(StepResult::Next, s@) =~~= step_spec(old(s)@, *heap, *instr));
            }
            StepResult::Next
        },
        Instr::PushUndef => {
            s.stack.push(Value::Undef);
            s.pc = s.pc + 1;
            proof {
                assert(abs_of(StepResult::Next, s@) =~~= step_spec(old(s)@, *heap, *instr));
            }
            StepResult::Next
        },
        Instr::PushNull => {
            s.stack.push(Value::Null);
            s.pc = s.pc + 1;
            proof {
                assert(abs_of(StepResult::Next, s@) =~~= step_spec(old(s)@, *heap, *instr));
            }
            StepResult::Next
        },
        Instr::PushNan => {
            s.stack.push(Value::Nan);
            s.pc = s.pc + 1;
            proof {
                assert(abs_of(StepResult::Next, s@) =~~= step_spec(old(s)@, *heap, *instr));
            }
            StepResult::Next
        },
        Instr::Add => {
            if s.stack.len() < 2 {
                return StepResult::Fault(VmFault::StackUnderflow);
            }
            let b = pop_value(&mut s.stack);
            let a = pop_value(&mut s.stack);
            s.stack.push(add_values(a, b));
            s.pc = s.pc + 1;
            proof {
                assert(abs_of(StepResult::Next, s@) =~~= step_spec(old(s)@, *heap, *instr));
            }
            StepResult::Next
        },
        Instr::Sub => {
            if s.stack.len() < 2 {
                return StepResult::Fault(VmFault::StackUnderflow);
            }
            let b = pop_value(&mut s.stack);
            let a = pop_value(&mut s.stack);
            s.stack.push(sub_values(a, b));
            s.pc = s.pc + 1;
            proof {
                assert(abs_of(StepResult::Next, s@) =~~= step_spec(old(s)@, *heap, *instr));
            }
            StepResult::Next
        },
        Instr::Mul => {
            if s.stack.len() < 2 {
                return StepResult::Fault(VmFault::StackUnderflow);
            }
            let b = pop_value(&mut s.stack);
            let a = pop_value(&mut s.stack);
            s.stack.push(mul_values(a, b));
            s.pc = s.pc + 1;
            proof {
                assert(abs_of(StepResult::Next, s@) =~~= step_spec(old(s)@, *heap, *instr));
            }
            StepResult::Next
        },
        Instr::Less => {
            if s.stack.len() < 2 {
                return StepResult::Fault(VmFault::StackUnderflow);
            }
            let b = pop_value(&mut s.stack);
            let a = pop_value(&mut s.stack);
            let c = match (&a, &b) {
                (Value::Int(x), Value::Int(y)) => *x < *y,
                _ => false,
            };
            s.stack.push(Value::Boolean(c));
            s.pc = s.pc + 1;
            proof {
                assert(c == less_spec(a@, b@));
                assert(abs_of(StepResult::Next, s@) =~~= step_spec(old(s)@, *heap, *instr));
            }
            StepResult::Next
        },
        Instr::StrictEq => {
            if s.stack.len() < 2 {
                return StepResult::Fault(VmFault::StackUnderflow);
            }
            let b = pop_value(&mut s.stack);
            let a = pop_value(&mut s.stack);
            let c = strict_eq(&a, &b);
            s.stack.push(Value::Boolean(c));
            s.pc = s.pc + 1;
            proof {
                assert(abs_of(StepResult::Next, s@) =~~= step_spec(old(s)@, *heap, *instr));
            }
            StepResult::Next
        },
        Instr::LogicalNot => {
            if s.stack.len() == 0 {
                return StepResult::Fault(VmFault::StackUnderflow);
            }
            let a = pop_value(&mut s.stack);
            let c = truthy(&a);
            s.stack.push(Value::Boolean(!c));
            s.pc = s.pc + 1;
            proof {
                assert(abs_of(StepResult::Next, s@) =~~= step_spec(old(s)@, *heap, *instr));
            }
            StepResult::Next
        },
        Instr::Neg => {
            if s.stack.len() == 0 {
                return StepResult::Fault(VmFault::StackUnderflow);
            }
            let a = pop_value(&mut s.stack);
            s.stack.push(neg_value(a));
            s.pc = s.pc + 1;
            proof {
                assert(abs_of(StepResult::Next, s@) =~~= step_spec(old(s)@, *heap, *instr));
            }
            StepResult::Next
        },
        Instr::Jmp(t) => {
            s.pc = *t;
            proof {
                assert(abs_of(StepResult::Next, s@) =~~= step_spec(old(s)@, *heap, *instr));
            }
            StepResult::Next
        },
        Instr::JmpIfTrue(t) => {
            if s.stack.len() == 0 {
                return StepResult::Fault(VmFault::StackUnderflow);
            }
            let a = pop_value(&mut s.stack);
            if truthy(&a) {
                s.pc = *t;
            } else {
                s.pc = s.pc + 1;
            }
            proof {
                assert(abs_of(StepResult::Next, s@) =~~= step_spec(old(s)@, *heap, *instr));
            }
            StepResult::Next
        },
        Instr::JmpIfFalse(t) => {
            if s.stack.len() == 0 {
                return StepResult::Fault(VmFault::StackUnderflow);
            }
            let a = pop_value(&mut s.stack);
            if truthy(&a) {
                s.pc = s.pc + 1;
            } else {
                s.pc = *t;
            }
            proof {
                assert(abs_of(StepResult::Next, s@) =~~= step_spec(old(s)@, *heap, *instr));
            }
            StepResult::Next
        },
        Instr::Call(t) => {
            s.calls.push(s.pc + 1);
            s.pc = *t;
            proof {
                assert(abs_of(StepResult::Next, s@) =~~= step_spec(old(s)@, *heap, *instr));
            }
            StepResult::Next
        },
        Instr::TailCall(t) => {
            s.pc = *t;
            proof {
                assert(abs_of(StepResult::Next, s@) =~~= step_spec(old(s)@, *heap, *instr));
            }
            StepResult::Next
        },
        Instr::Ret => {
            if s.stack.len() == 0 {
                return StepResult::Fault(VmFault::StackUnderflow);
            }
            if s.calls.len() == 0 {
                let v = value_dup(&s.stack[s.stack.len() - 1]);
                proof {
                    assert(abs_of(StepResult::Return(v), s@) =~~= step_spec(
                        old(s)@,
                        *heap,
                        *instr,
                    ));
                }
                return StepResult::Return(v);
            }
            let ret = match s.calls.pop() {
                Some(p) => p,
                None => 0,
            };
            s.pc = ret;
            proof {
                assert(abs_of(StepResult::Next, s@) =~~= step_spec(old(s)@, *heap, *instr));
            }
            StepResult::Next
        },
        Instr::PushEnv => {
            let ne: Vec<Binding> = Vec::new();
            s.envs.push(ne);
            s.pc = s.pc + 1;
            proof {
                assert(chain_view(s.envs).last() =~= Seq::<AbsBinding>::empty());
                assert(abs_of(StepResult::Next, s@) =~~= step_spec(old(s)@, *heap, *instr));
            }
            StepResult::Next
        },
        Instr::PopEnv => {
            if s.envs.len() == 0 {
                return StepResult::Fault(VmFault::EnvUnderflow);
            }
            let _ = s.envs.pop();
            s.pc = s.pc + 1;
            proof {
                assert(abs_of(StepResult::Next, s@) =~~= step_spec(old(s)@, *heap, *instr));
            }
            StepResult::Next
        },
        Instr::DeclLet(x) => {
            if s.envs.len() == 0 {
                return StepResult::Fault(VmFault::EnvUnderflow);
            }
            let mut env = match s.envs.pop() {
                Some(e) => e,
                None => Vec::new(),
            };
            env.push(Binding { name: *x, val: Value::Undef, mutable: true, initialized: true });
            s.envs.push(env);
            s.pc = s.pc + 1;
            proof {
                assert(abs_of(StepResult::Next, s@) =~~= step_spec(old(s)@, *heap, *instr));
            }
            StepResult::Next
        },
        Instr::DeclConst(x) => {
            if s.envs.len() == 0 {
                return StepResult::Fault(VmFault::EnvUnderflow);
            }
            let mut env = match s.envs.pop() {
                Some(e) => e,
                None => Vec::new(),
            };
            env.push(
                Binding { name: *x, val: Value::Undef, mutable: false, initialized: false },
            );
            s.envs.push(env);
            s.pc = s.pc + 1;
            proof {
                assert(abs_of(StepResult::Next, s@) =~~= step_spec(old(s)@, *heap, *instr));
            }
            StepResult::Next
        },
        Instr::GetVar(x) => {
            let found = find_binding_exec(&s.envs, *x);
            match found {
                None => StepResult::Fault(VmFault::UnboundVariable),
                Some((ei, bi)) => {
                    proof {
                        assert(chain_view(s.envs)[ei as int] == env_view(s.envs@[ei as int]));
                        assert(env_view(s.envs@[ei as int])[bi as int] == s.envs@[ei as int]@[
                            bi as int]@);
                    }
                    let v = value_dup(&s.envs[ei][bi].val);
                    s.stack.push(v);
                    s.pc = s.pc + 1;
                    proof {
                        assert(abs_of(StepResult::Next, s@) =~~= step_spec(
                            old(s)@,
                            *heap,
                            *instr,
                        ));
                    }
                    StepResult::Next
                },
            }
        },
        Instr::SetVar(x) => {
            if s.stack.len() == 0 {
                return StepResult::Fault(VmFault::StackUnderflow);
            }
            let found = find_binding_exec(&s.envs, *x);
            match found {
                None => StepResult::Fault(VmFault::UnboundVariable),
                Some((ei, bi)) => {
                    proof {
                        assert(chain_view(s.envs)[ei as int] == env_view(s.envs@[ei as int]));
                        assert(env_view(s.envs@[ei as int])[bi as int] == s.envs@[ei as int]@[
                            bi as int]@);
                    }
                    let was_mutable = s.envs[ei][bi].mutable;
                    let was_initialized = s.envs[ei][bi].initialized;
                    if !was_mutable && was_initialized {
                        return StepResult::Fault(VmFault::ConstViolation);
                    }
                    let v = pop_value(&mut s.stack);
                    let nb = Binding { name: *x, val: v, mutable: was_mutable, initialized: true };
                    let ne = rebuild_env(&s.envs[ei], bi, nb);
                    s.envs[ei] = ne;
                    s.pc = s.pc + 1;
                    proof {
                        assert(chain_view(s.envs) =~= chain_view(old(s).envs).update(
                            ei as int,
                            env_view(old(s).envs@[ei as int]).update(
                                bi as int,
                                AbsBinding {
                                    name: *x,
                                    val: old(s)@.stack.last(),
                                    mutable: was_mutable,
                                    initialized: true,
                                },
                            ),
                        ));
                        assert(abs_of(StepResult::Next, s@) =~~= step_spec(
                            old(s)@,
                            *heap,
                            *instr,
                        ));
                    }
                    StepResult::Next
                },
            }
        },
        Instr::Throw => {
            if s.stack.len() == 0 {
                return StepResult::Fault(VmFault::StackUnderflow);
            }
            let v = pop_value(&mut s.stack);
            if s.handlers.len() == 0 {
                proof {
                    assert(abs_of(StepResult::Uncaught(v), s@) =~~= step_spec(
                        old(s)@,
                        *heap,
                        *instr,
                    ));
                }
                return StepResult::Uncaught(v);
            }
            let hd = match s.handlers.pop() {
                Some(h) => h,
                None => Handler { target: 0, stack_len: 0, env_len: 0, call_len: 0 },
            };
            if hd.stack_len <= s.stack.len() && hd.env_len <= s.envs.len() && hd.call_len
                <= s.calls.len() {
                s.stack.truncate(hd.stack_len);
                s.stack.push(v);
                s.envs.truncate(hd.env_len);
                s.calls.truncate(hd.call_len);
                s.pc = hd.target;
                proof {
                    assert(abs_of(StepResult::Next, s@) =~~= step_spec(old(s)@, *heap, *instr));
                }
                StepResult::Next
            } else {
                proof {
                    assert(abs_of(StepResult::Fault(VmFault::StackUnderflow), s@) =~~= step_spec(
                        old(s)@,
                        *heap,
                        *instr,
                    ));
                }
                StepResult::Fault(VmFault::StackUnderflow)
            }
        },
        Instr::PushCatch(t) => {
            s.handlers.push(
                Handler {
                    target: *t,
                    stack_len: s.stack.len(),
                    env_len: s.envs.len(),
                    call_len: s.calls.len(),
                },
            );
            s.pc = s.pc + 1;
            proof {
                assert(abs_of(StepResult::Next, s@) =~~= step_spec(old(s)@, *heap, *instr));
            }
            StepResult::Next
        },
        Instr::PopCatch => {
            if s.handlers.len() == 0 {
                return StepResult::Fault(VmFault::HandlerUnderflow);
            }
            let _ = s.handlers.pop();
            s.pc = s.pc + 1;
            proof {
                assert(abs_of(StepResult::Next, s@) =~~= step_spec(old(s)@, *heap, *instr));
            }
            StepResult::Next
        },
        Instr::GetById(x) => {
            if s.stack.len() == 0 {
                return StepResult::Fault(VmFault::StackUnderflow);
            }
            let v = pop_value(&mut s.stack);
            match v {
                Value::Obj(p) => {
                    let copt = heap.try_cell_ref(p);
                    match copt {
                        None => StepResult::Fault(VmFault::NotAnObject),
                        Some(c) => match &c.payload {
                            CellPayload::Object(props) => {
                                let fp = find_prop_exec(props, *x);
                                match fp {
                                    None => StepResult::Fault(VmFault::MissingProperty),
                                    Some(k) => {
                                        proof {
                                            assert(props_view(*props)[k as int] == prop_view(
                                                props@[k as int],
                                            ));
                                        }
                                        let pv = value_dup(&props[k].1);
                                        s.stack.push(pv);
                                        s.pc = s.pc + 1;
                                        proof {
                                            assert(abs_of(StepResult::Next, s@) =~~= step_spec(
                                                old(s)@,
                                                *heap,
                                                *instr,
                                            ));
                                        }
                                        StepResult::Next
                                    },
                                }
                            },
                            _ => StepResult::Fault(VmFault::NotAnObject),
                        },
                    }
                },
                _ => StepResult::Fault(VmFault::NotAnObject),
            }
        },
        Instr::TryGetById(x) => {
            if s.stack.len() == 0 {
                return StepResult::Fault(VmFault::StackUnderflow);
            }
            let v = pop_value(&mut s.stack);
            match v {
                Value::Obj(p) => {
                    let copt = heap.try_cell_ref(p);
                    match copt {
                        None => StepResult::Fault(VmFault::NotAnObject),
                        Some(c) => match &c.payload {
                            CellPayload::Object(props) => {
                                let fp = find_prop_exec(props, *x);
                                match fp {
                                    None => {
                                        s.stack.push(Value::Undef);
                                        s.pc = s.pc + 1;
                                        proof {
                                            assert(abs_of(StepResult::Next, s@) =~~= step_spec(
                                                old(s)@,
                                                *heap,
                                                *instr,
                                            ));
                                        }
                                        StepResult::Next
                                    },
                                    Some(k) => {
                                        proof {
                                            assert(props_view(*props)[k as int] == prop_view(
                                                props@[k as int],
                                            ));
                                        }
                                        let pv = value_dup(&props[k].1);
                                        s.stack.push(pv);
                                        s.pc = s.pc + 1;
                                        proof {
                                            assert(abs_of(StepResult::Next, s@) =~~= step_spec(
                                                old(s)@,
                                                *heap,
                                                *instr,
                                            ));
                                        }
                                        StepResult::Next
                                    },
                                }
                            },
                            _ => StepResult::Fault(VmFault::NotAnObject),
                        },
                    }
                },
                _ => StepResult::Fault(VmFault::NotAnObject),
            }
        },
        Instr::ForinSetup => {
            if s.stack.len() == 0 {
                return StepResult::Fault(VmFault::StackUnderflow);
            }
            let v = pop_value(&mut s.stack);
            match v {
                Value::Obj(p) => {
                    let copt = heap.try_cell_ref(p);
                    match copt {
                        None => StepResult::Fault(VmFault::NotAnObject),
                        Some(c) => match &c.payload {
                            CellPayload::Object(props) => {
                                let keys = object_keys(props);
                                s.iters.push(ForinIter { keys, pos: 0 });
                                s.pc = s.pc + 1;
                                proof {
                                    assert(abs_of(StepResult::Next, s@) =~~= step_spec(
                                        old(s)@,
                                        *heap,
                                        *instr,
                                    ));
                                }
                                StepResult::Next
                            },
                            _ => StepResult::Fault(VmFault::NotAnObject),
                        },
                    }
                },
                _ => {
                    s.iters.push(ForinIter { keys: Vec::new(), pos: 0 });
                    s.pc = s.pc + 1;
                    proof {
                        assert(abs_of(StepResult::Next, s@) =~~= step_spec(
                            old(s)@,
                            *heap,
                            *instr,
                        ));
                    }
                    StepResult::Next
                },
            }
        },
        Instr::ForinEnumerate => {
            if s.iters.len() == 0 {
                return StepResult::Fault(VmFault::IterUnderflow);
            }
            let mut it = match s.iters.pop() {
                Some(it) => it,
                None => ForinIter { keys: Vec::new(), pos: 0 },
            };
            if it.pos < it.keys.len() {
                let key = it.keys[it.pos];
                it.pos = it.pos + 1;
                s.iters.push(it);
                s.stack.push(Value::Int(key as i64));
                s.pc = s.pc + 1;
                proof {
                    assert(abs_of(StepResult::Next, s@) =~~= step_spec(old(s)@, *heap, *instr));
                }
                StepResult::Next
            } else {
                s.iters.push(it);
                s.stack.push(Value::Undef);
                s.pc = s.pc + 1;
                proof {
                    assert(s@.iters =~= old(s)@.iters);
                    assert(abs_of(StepResult::Next, s@) =~~= step_spec(old(s)@, *heap, *instr));
                }
                StepResult::Next
            }
        },
        Instr::ForinLeave => {
            if s.iters.len() == 0 {
                return StepResult::Fault(VmFault::IterUnderflow);
            }
            let _ = s.iters.pop();
            s.pc = s.pc + 1;
            proof {
                assert(abs_of(StepResult::Next, s@) =~~= step_spec(old(s)@, *heap, *instr));
            }
            StepResult::Next
        },
    }
}

/// Run a frame to completion under explicit fuel: proved to realize exactly
/// `run_spec`.
pub fn run(program: &Vec<Instr>, heap: &Heap, s: &mut VmState, fuel: u64) -> (r: StepResult)
    ensures
        !(r is Next),
        abs_of(r, final(s)@) == run_spec(program@, *heap, old(s)@, fuel as nat),
{
    let mut fuel_left: u64 = fuel;
    while fuel_left > 0
        invariant
            fuel_left <= fuel,
            run_spec(program@, *heap, s@, fuel_left as nat) == run_spec(
                program@,
                *heap,
                old(s)@,
                fuel as nat,
            ),
        decreases fuel_left,
    {
        if !(s.pc < program.len()) {
            proof {
                assert(run_spec(program@, *heap, s@, fuel_left as nat) == AbsOutcome::Fault(
                    VmFault::PcOutOfRange,
                ));
            }
            return StepResult::Fault(VmFault::PcOutOfRange);
        }
        let ghost pre = s@;
        let res = step(s, heap, &program[s.pc]);
        match res {
            StepResult::Next => {
                proof {
                    assert(step_spec(pre, *heap, program@[pre.pc]) == AbsOutcome::Next(s@));
                    assert(run_spec(program@, *heap, pre, fuel_left as nat) == run_spec(
                        program@,
                        *heap,
                        s@,
                        (fuel_left - 1) as nat,
                    ));
                }
                fuel_left = fuel_left - 1;
            },
            StepResult::Return(v) => {
                return StepResult::Return(v);
            },
            StepResult::Uncaught(v) => {
                return StepResult::Uncaught(v);
            },
            StepResult::Fault(f) => {
                return StepResult::Fault(f);
            },
        }
    }
    StepResult::Fault(VmFault::OutOfFuel)
}

/// The tag of the closed instruction vocabulary that an executable
/// instruction carries out.
pub open spec fn opcode_of_spec(i: Instr) -> Opcode {
    match i {
        Instr::Nop => Opcode::OP_NOP,
        Instr::Dup => Opcode::OP_DUP,
        Instr::Pop => Opcode::OP_POP,
        Instr::Swap => Opcode::OP_SWAP,
        Instr::PushLiteral(_) => Opcode::OP_PUSH_LITERAL,
        Instr::PushInt(_) => Opcode::OP_PUSH_INT,
        Instr::PushTrue => Opcode::OP_PUSH_TRUE,
        Instr::PushFalse => Opcode::OP_PUSH_FALSE,
        Instr::PushUndef => Opcode::OP_PUSH_UNDEF,
        Instr::PushNull => Opcode::OP_PUSH_NULL,
        Instr::PushNan => Opcode::OP_PUSH_NAN,
        Instr::Add => Opcode::OP_ADD,
        Instr::Sub => Opcode::OP_SUB,
        Instr::Mul => Opcode::OP_MUL,
        Instr::Less => Opcode::OP_LESS,
        Instr::StrictEq => Opcode::OP_STRICTEQ,
        Instr::LogicalNot => Opcode::OP_LOGICAL_NOT,
        Instr::Neg => Opcode::OP_NEG,
        Instr::Jmp(_) => Opcode::OP_JMP,
        Instr::JmpIfTrue(_) => Opcode::OP_JMP_IF_TRUE,
        Instr::JmpIfFalse(_) => Opcode::OP_JMP_IF_FALSE,
        Instr::Call(_) => Opcode::OP_CALL,
        Instr::TailCall(_) => Opcode::OP_TAILCALL,
        Instr::Ret => Opcode::OP_RET,
        Instr::PushEnv => Opcode::OP_PUSH_ENV,
        Instr::PopEnv => Opcode::OP_POP_ENV,
        Instr::DeclLet(_) => Opcode::OP_DECL_LET,
        Instr::DeclConst(_) => Opcode::OP_DECL_CONST,
        Instr::GetVar(_) => Opcode::OP_GET_VAR,
        Instr::SetVar(_) => Opcode::OP_SET_VAR,
        Instr::Throw => Opcode::OP_THROW,
        Instr::PushCatch(_) => Opcode::OP_PUSH_CATCH,
        Instr::PopCatch => Opcode::OP_POP_CATCH,
        Instr::GetById(_) => Opcode::OP_GET_BY_ID,
        Instr::TryGetById(_) => Opcode::OP_TRY_GET_BY_ID,
        Instr::ForinSetup => Opcode::OP_FORIN_SETUP,
        Instr::ForinEnumerate => Opcode::OP_FORIN_ENUMERATE,
        Instr::ForinLeave => Opcode::OP_FORIN_LEAVE,
    }
}

/// The tag of the closed instruction vocabulary that an executable
/// instruction carries out.
pub fn opcode_of(i: &Instr) -> (r: Opcode)
    ensures
        r == opcode_of_spec(*i),
{
    match i {
        Instr::Nop => Opcode::OP_NOP,
        Instr::Dup => Opcode::OP_DUP,
        Instr::Pop => Opcode::OP_POP,
        Instr::Swap => Opcode::OP_SWAP,
        Instr::PushLiteral(_) => Opcode::OP_PUSH_LITERAL,
        Instr::PushInt(_) => Opcode::OP_PUSH_INT,
        Instr::PushTrue => Opcode::OP_PUSH_TRUE,
        Instr::PushFalse => Opcode::OP_PUSH_FALSE,
        Instr::PushUndef => Opcode::OP_PUSH_UNDEF,
        Instr::PushNull => Opcode::OP_PUSH_NULL,
        Instr::PushNan => Opcode::OP_PUSH_NAN,
        Instr::Add => Opcode::OP_ADD,
        Instr::Sub => Opcode::OP_SUB,
        Instr::Mul => Opcode::OP_MUL,
        Instr::Less => Opcode::OP_LESS,
        Instr::StrictEq => Opcode::OP_STRICTEQ,
        Instr::LogicalNot => Opcode::OP_LOGICAL_NOT,
        Instr::Neg => Opcode::OP_NEG,
        Instr::Jmp(_) => Opcode::OP_JMP,
        Instr::JmpIfTrue(_) => Opcode::OP_JMP_IF_TRUE,
        Instr::JmpIfFalse(_) => Opcode::OP_JMP_IF_FALSE,
        Instr::Call(_) => Opcode::OP_CALL,
        Instr::TailCall(_) => Opcode::OP_TAILCALL,
        Instr::Ret => Opcode::OP_RET,
        Instr::PushEnv => Opcode::OP_PUSH_ENV,
        Instr::PopEnv => Opcode::OP_POP_ENV,
        Instr::DeclLet(_) => Opcode::OP_DECL_LET,
        Instr::DeclConst(_) => Opcode::OP_DECL_CONST,
        Instr::GetVar(_) => Opcode::OP_GET_VAR,
        Instr::SetVar(_) => Opcode::OP_SET_VAR,
        Instr::Throw => Opcode::OP_THROW,
        Instr::PushCatch(_) => Opcode::OP_PUSH_CATCH,
        Instr::PopCatch => Opcode::OP_POP_CATCH,
        Instr::GetById(_) => Opcode::OP_GET_BY_ID,
        Instr::TryGetById(_) => Opcode::OP_TRY_GET_BY_ID,
        Instr::ForinSetup => Opcode::OP_FORIN_SETUP,
        Instr::ForinEnumerate => Opcode::OP_FORIN_ENUMERATE,
        Instr::ForinLeave => Opcode::OP_FORIN_LEAVE,
    }
}

/// For-in yields each enumerable key exactly once, in the stable
/// property-list order: on a well-formed heap, the key sequence that
/// `ForinSetup` captures for a live object lists the object's property keys
/// in order and holds no key twice; each `ForinEnumerate` then yields
/// exactly one position of it (see the `ForinEnumerate` arm of
/// `step_spec`), and `ForinLeave` drops the state.
pub proof fn lemma_forin_keys_exact(h: Heap, oi: int)
    requires
        h.wf(),
        h.live(oi),
        h.cell_at(oi).payload is Object,
    ensures
        (obj_keys_spec(h, oi) matches Some(keys) && {
            let props = h.cell_at(oi).payload->Object_0;
            &&& keys.len() == props@.len()
            &&& (forall|k: int| 0 <= k < keys.len() ==> #[trigger] keys[k] == props@[k].0)
            &&& (forall|k1: int, k2: int|
                0 <= k1 < k2 < keys.len() ==> (#[trigger] keys[k1]) != (#[trigger] keys[k2]))
        }),
{
    let props = h.cell_at(oi).payload->Object_0;
    assert(h.cell_ok(h.cell_at(oi)));
    let keys = keys_view(props);
    assert forall|k1: int, k2: int| 0 <= k1 < k2 < keys.len() implies (#[trigger] keys[k1]) != (
    #[trigger] keys[k2]) by {
        assert(keys[k1] == props@[k1].0);
        assert(keys[k2] == props@[k2].0);
        assert(props@[k1].0 != props@[k2].0);
    }
}

/// A write to a constant binding after its initializing write is a
/// const-violation fault raised at the write; the initializing write itself
/// succeeds, pins the value, and leaves the binding immutable.
pub proof fn lemma_const_write(s: AbsState, h: Heap, x: u32, ei: int, bi: int)
    requires
        s.stack.len() > 0,
        find_binding(s.envs, x) == Some((ei, bi)),
        0 <= ei < s.envs.len(),
        0 <= bi < s.envs[ei].len(),
        !s.envs[ei][bi].mutable,
    ensures
        s.envs[ei][bi].initialized ==> step_spec(s, h, Instr::SetVar(x)) == AbsOutcome::Fault(
            VmFault::ConstViolation,
        ),
        !s.envs[ei][bi].initialized ==> (step_spec(s, h, Instr::SetVar(x)) matches
            AbsOutcome::Next(s2) && s2.envs[ei][bi].val == s.stack.last()
            && s2.envs[ei][bi].initialized && !s2.envs[ei][bi].mutable),
{
}

} // verus!
