//! Instruction-codec round trips and decoder error cases, plus direct
//! interpreter runs on hand-assembled code.

use pleroma_vm::opcodes::{
    decode_instruction, encode_instruction, encode_value, Hvalue, Op, VmError,
};
use pleroma_vm::ast::{AstNode, EntityDef, FunctionDef, Module};
use pleroma_vm::codegen::compile;
use pleroma_vm::pbin::disassemble;
use pleroma_vm::vm::{run_expr, ForeignHost};
use pleroma_vm::vm_core::{Entity, EntityAddress, Msg, MsgContents, StackFrame, Vat, VarTable};

struct NoHost;

impl ForeignHost for NoHost {
    fn call_foreign(&mut self, _func_id: u8, _entity: &mut Entity, _arg: Hvalue) -> Hvalue {
        Hvalue::HNone
    }
}

fn round_trip(op: Op) {
    let bytes = encode_instruction(&op);
    let (next, back) = decode_instruction(0, &bytes).expect("decoding should succeed");
    assert_eq!(next, bytes.len());
    assert_eq!(back, op);
}

#[test]
fn codec_round_trip_every_opcode() {
    round_trip(Op::Push(Hvalue::HNone));
    round_trip(Op::Push(Hvalue::Hu8(42)));
    round_trip(Op::Push(Hvalue::HPromise(3)));
    round_trip(Op::Add);
    round_trip(Op::Sub);
    round_trip(Op::Mul);
    round_trip(Op::Div);
    round_trip(Op::Lload(b"x".to_vec()));
    round_trip(Op::Lstore(b"some_longer_name".to_vec()));
    round_trip(Op::Eload(b"n".to_vec()));
    round_trip(Op::Estore(b"field".to_vec()));
    round_trip(Op::Message(0));
    round_trip(Op::Message(255));
    round_trip(Op::Await);
    round_trip(Op::Ret);
    round_trip(Op::ForeignCall(0));
    round_trip(Op::ForeignCall(9));
    round_trip(Op::Nop);
}

#[test]
fn codec_round_trip_empty_name() {
    round_trip(Op::Lload(Vec::new()));
}

#[test]
fn encode_value_is_tagged() {
    assert_eq!(encode_value(&Hvalue::HNone), vec![1]);
    assert_eq!(encode_value(&Hvalue::Hu8(4)), vec![2, 4]);
    assert_eq!(encode_value(&Hvalue::HPromise(2)), vec![3, 2]);
}

#[test]
fn unknown_opcode_is_rejected() {
    let code = vec![0xEEu8];
    assert_eq!(decode_instruction(0, &code), Err(VmError::InvalidOpcode));
}

#[test]
fn truncated_operand_is_rejected() {
    // Push with a value tag but no payload byte.
    let code = vec![1u8, 2u8];
    assert_eq!(decode_instruction(0, &code), Err(VmError::InvalidOpcode));
    // A name missing its zero terminator.
    let code = vec![6u8, 1u8, b'x'];
    assert_eq!(decode_instruction(0, &code), Err(VmError::InvalidOpcode));
}

fn bare_msg() -> Msg {
    Msg {
        src_address: EntityAddress { node_id: 0, vat_id: 0, entity_id: 0 },
        dst_address: EntityAddress { node_id: 0, vat_id: 0, entity_id: 0 },
        contents: MsgContents::BigBang {
            args: Vec::new(),
            function_id: 0,
            function_name: b"main".to_vec(),
        },
    }
}

fn fresh_vat() -> Vat {
    let mut vat = Vat::new();
    vat.call_stack.push(StackFrame { locals: VarTable::new(), return_address: None });
    vat
}

fn assemble(ops: &[Op]) -> Vec<u8> {
    let mut code = Vec::new();
    for op in ops {
        code.append(&mut encode_instruction(op));
    }
    code
}

#[test]
fn stack_underflow_is_fatal() {
    let code = assemble(&[Op::Add]);
    let mut vat = fresh_vat();
    let r = run_expr(0, &mut vat, &bare_msg(), &mut NoHost, &code, 100);
    assert_eq!(r, Err(VmError::StackUnderflow));
}

#[test]
fn type_mismatch_is_fatal() {
    let code = assemble(&[Op::Push(Hvalue::HNone), Op::Push(Hvalue::Hu8(2)), Op::Add]);
    let mut vat = fresh_vat();
    let r = run_expr(0, &mut vat, &bare_msg(), &mut NoHost, &code, 100);
    assert_eq!(r, Err(VmError::TypeMismatch));
}

#[test]
fn unbound_local_is_fatal() {
    let code = assemble(&[Op::Lload(b"nowhere".to_vec())]);
    let mut vat = fresh_vat();
    let r = run_expr(0, &mut vat, &bare_msg(), &mut NoHost, &code, 100);
    assert_eq!(r, Err(VmError::UnboundName));
}

#[test]
fn residual_operands_are_invalid() {
    // Two pushes and an implicit return leave two residual values.
    let code = assemble(&[Op::Push(Hvalue::Hu8(1)), Op::Push(Hvalue::Hu8(2))]);
    let mut vat = fresh_vat();
    let r = run_expr(0, &mut vat, &bare_msg(), &mut NoHost, &code, 100);
    assert_eq!(r, Err(VmError::InvalidProgram));
}

#[test]
fn empty_stack_returns_none_value() {
    let code = assemble(&[Op::Nop]);
    let mut vat = fresh_vat();
    let r = run_expr(0, &mut vat, &bare_msg(), &mut NoHost, &code, 100);
    assert_eq!(r, Ok(Some(Hvalue::HNone)));
}

#[test]
fn await_on_non_promise_is_promise_misuse() {
    let code = assemble(&[Op::Push(Hvalue::Hu8(1)), Op::Await]);
    let mut vat = fresh_vat();
    let r = run_expr(0, &mut vat, &bare_msg(), &mut NoHost, &code, 100);
    assert_eq!(r, Err(VmError::PromiseMisuse));
}

#[test]
fn step_limit_stops_runaway_code() {
    let code = assemble(&[Op::Nop, Op::Nop, Op::Nop, Op::Nop]);
    let mut vat = fresh_vat();
    let r = run_expr(0, &mut vat, &bare_msg(), &mut NoHost, &code, 2);
    assert_eq!(r, Err(VmError::StepLimit));
}

#[test]
fn message_allocates_fresh_promise_and_request() {
    let code = assemble(&[Op::Message(5)]);
    let mut vat = fresh_vat();
    let r = run_expr(0, &mut vat, &bare_msg(), &mut NoHost, &code, 100);
    assert_eq!(r, Ok(Some(Hvalue::HPromise(0))));
    assert_eq!(vat.promise_stack.len(), 1);
    assert!(!vat.promise_stack[0].resolved);
    assert_eq!(vat.outbox.len(), 1);
    match &vat.outbox[0].contents {
        MsgContents::Request { function_id, src_promise, function_name, .. } => {
            assert_eq!(*function_id, 5);
            assert_eq!(*src_promise, Some(0));
            assert_eq!(function_name, &b"main".to_vec());
        },
        _ => panic!("expected a request"),
    }
    assert_eq!(vat.outbox[0].dst_address.entity_id, 0);
}

#[test]
fn locals_shadow_and_update() {
    let mut vat = fresh_vat();
    let x = b"x".to_vec();
    assert!(vat.load_local(&x).is_err());
    vat.store_local(&x, Hvalue::Hu8(1)).unwrap();
    assert_eq!(vat.load_local(&x), Ok(Hvalue::Hu8(1)));
    vat.store_local(&x, Hvalue::Hu8(9)).unwrap();
    assert_eq!(vat.load_local(&x), Ok(Hvalue::Hu8(9)));
}

#[test]
fn disassemble_lists_each_function() {
    let mut module = Module {
        entity_defs: vec![EntityDef {
            name: b"Main".to_vec(),
            data_declarations: vec![],
            functions: vec![FunctionDef {
                name: b"main".to_vec(),
                body: vec![AstNode::Return(Box::new(AstNode::Value(Hvalue::Hu8(5))))],
            }],
        }],
    };
    let binary = compile(&mut module).expect("compilation should succeed");
    let listing = disassemble(&binary).expect("the generated code should decode");
    assert_eq!(listing.len(), 1);
    let (eid, fid, ops) = &listing[0];
    assert_eq!(*eid, 0);
    assert_eq!(*fid, 0);
    assert_eq!(ops, &vec![Op::Push(Hvalue::Hu8(5)), Op::Ret]);
}
