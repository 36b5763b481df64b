//! End-to-end scenarios: compile a small program, load its tables, and run
//! messages against a vat.

use pleroma_vm::ast::{AstNode, BinOp, EntityDef, FunctionDef, Identifier, IdentifierTarget, Module};
use pleroma_vm::codegen::{compile, resolve_module, CompileError};
use pleroma_vm::opcodes::{Hvalue, VmError};
use pleroma_vm::pbin::{load_entity_data_table, load_entity_function_table};
use pleroma_vm::vm::{apply_entity_data_table, run_expr, run_msg, ForeignHost};
use pleroma_vm::vm_core::{Entity, EntityAddress, Msg, MsgContents, Vat};

const FUEL: usize = 10_000;

struct NoHost;

impl ForeignHost for NoHost {
    fn call_foreign(&mut self, _func_id: u8, _entity: &mut Entity, _arg: Hvalue) -> Hvalue {
        Hvalue::HNone
    }
}

struct SevenHost;

impl ForeignHost for SevenHost {
    fn call_foreign(&mut self, func_id: u8, _entity: &mut Entity, _arg: Hvalue) -> Hvalue {
        assert_eq!(func_id, 0);
        Hvalue::Hu8(7)
    }
}

fn ident(name: &str) -> Identifier {
    Identifier { original_sym: name.as_bytes().to_vec(), target: IdentifierTarget::Unresolved }
}

fn entity(name: &str, data: &[&str], functions: Vec<FunctionDef>) -> EntityDef {
    EntityDef {
        name: name.as_bytes().to_vec(),
        data_declarations: data.iter().map(|d| d.as_bytes().to_vec()).collect(),
        functions,
    }
}

fn func(name: &str, body: Vec<AstNode>) -> FunctionDef {
    FunctionDef { name: name.as_bytes().to_vec(), body }
}

fn request(dst_entity: u32, function_id: u32) -> Msg {
    Msg {
        src_address: EntityAddress { node_id: 0, vat_id: 0, entity_id: 99 },
        dst_address: EntityAddress { node_id: 0, vat_id: 0, entity_id: dst_entity },
        contents: MsgContents::Request {
            args: Vec::new(),
            function_id,
            function_name: b"main".to_vec(),
            src_promise: None,
        },
    }
}

/// Compiles a module and returns the binary.
fn build(mut module: Module) -> Vec<u8> {
    compile(&mut module).expect("compilation should succeed")
}

/// Creates a vat hosting one entity per definition, with data fields
/// initialized from the binary's data table.
fn vat_for(module: &Module, binary: &Vec<u8>) -> Vat {
    let mut vat = Vat::new();
    for def in module.entity_defs.iter() {
        vat.create_entity(def);
    }
    let mut z = 0usize;
    let rows = load_entity_data_table(&mut z, binary).expect("data table should parse");
    apply_entity_data_table(&mut vat, &rows);
    vat
}

fn run_request(binary: &Vec<u8>, vat: &mut Vat, dst_entity: u32, function_id: u32) -> Hvalue {
    let msg = request(dst_entity, function_id);
    let out = run_msg(binary, vat, &msg, &mut NoHost, FUEL)
        .expect("message should run")
        .expect("request should produce a response");
    match out.contents {
        MsgContents::Response { result, .. } => result,
        _ => panic!("expected a response"),
    }
}

#[test]
fn s1_arithmetic() {
    // return 2 + 3  ==>  U8(5)
    let module = Module {
        entity_defs: vec![entity(
            "Main",
            &[],
            vec![func(
                "main",
                vec![AstNode::Return(Box::new(AstNode::Operator(
                    BinOp::Add,
                    Box::new(AstNode::Value(Hvalue::Hu8(2))),
                    Box::new(AstNode::Value(Hvalue::Hu8(3))),
                )))],
            )],
        )],
    };
    let shape = Module {
        entity_defs: vec![entity("Main", &[], vec![])],
    };
    let binary = build(module);
    let mut vat = vat_for(&shape, &binary);
    assert_eq!(run_request(&binary, &mut vat, 0, 0), Hvalue::Hu8(5));
}

#[test]
fn s2_local_let() {
    // let x = 4; return x * 2  ==>  U8(8)
    let module = Module {
        entity_defs: vec![entity(
            "Main",
            &[],
            vec![func(
                "main",
                vec![
                    AstNode::Definition(
                        ident("x"),
                        Box::new(AstNode::Value(Hvalue::Hu8(4))),
                    ),
                    AstNode::Return(Box::new(AstNode::Operator(
                        BinOp::Mul,
                        Box::new(AstNode::Identifier(ident("x"))),
                        Box::new(AstNode::Value(Hvalue::Hu8(2))),
                    ))),
                ],
            )],
        )],
    };
    let shape = Module {
        entity_defs: vec![entity("Main", &[], vec![])],
    };
    let binary = build(module);
    let mut vat = vat_for(&shape, &binary);
    assert_eq!(run_request(&binary, &mut vat, 0, 0), Hvalue::Hu8(8));
}

#[test]
fn s3_entity_data() {
    // Declared field `n` starts as the data table says (U8(4)); return n.
    let module = Module {
        entity_defs: vec![entity(
            "Main",
            &["n"],
            vec![func(
                "main",
                vec![AstNode::Return(Box::new(AstNode::Identifier(ident("n"))))],
            )],
        )],
    };
    let shape = Module {
        entity_defs: vec![entity("Main", &["n"], vec![])],
    };
    let binary = build(module);
    let mut vat = vat_for(&shape, &binary);
    assert_eq!(run_request(&binary, &mut vat, 0, 0), Hvalue::Hu8(4));
}

#[test]
fn s4_assignment() {
    // let x = 1; x = x + 4; return x  ==>  U8(5)
    let module = Module {
        entity_defs: vec![entity(
            "Main",
            &[],
            vec![func(
                "main",
                vec![
                    AstNode::Definition(
                        ident("x"),
                        Box::new(AstNode::Value(Hvalue::Hu8(1))),
                    ),
                    AstNode::Assignment(
                        ident("x"),
                        Box::new(AstNode::Operator(
                            BinOp::Add,
                            Box::new(AstNode::Identifier(ident("x"))),
                            Box::new(AstNode::Value(Hvalue::Hu8(4))),
                        )),
                    ),
                    AstNode::Return(Box::new(AstNode::Identifier(ident("x")))),
                ],
            )],
        )],
    };
    let shape = Module {
        entity_defs: vec![entity("Main", &[], vec![])],
    };
    let binary = build(module);
    let mut vat = vat_for(&shape, &binary);
    assert_eq!(run_request(&binary, &mut vat, 0, 0), Hvalue::Hu8(5));
}

#[test]
fn s5_foreign_call() {
    // A host function registered as id 0 returns U8(7); return foreign(0).
    let module = Module {
        entity_defs: vec![entity(
            "Main",
            &[],
            vec![func("main", vec![AstNode::ForeignCall(0)])],
        )],
    };
    let shape = Module {
        entity_defs: vec![entity("Main", &[], vec![])],
    };
    let binary = build(module);
    let mut vat = vat_for(&shape, &binary);
    let msg = request(0, 0);
    let out = run_msg(&binary, &mut vat, &msg, &mut SevenHost, FUEL)
        .expect("message should run")
        .expect("request should produce a response");
    match out.contents {
        MsgContents::Response { result, .. } => assert_eq!(result, Hvalue::Hu8(7)),
        _ => panic!("expected a response"),
    }
}

fn s6_module() -> Module {
    // Entity A: ping  ==> U8(9).  Entity B: main:
    //   let r = A.ping(); await r; return r + 1
    Module {
        entity_defs: vec![
            entity(
                "A",
                &[],
                vec![func(
                    "ping",
                    vec![AstNode::Return(Box::new(AstNode::Value(Hvalue::Hu8(9))))],
                )],
            ),
            entity(
                "B",
                &[],
                vec![func(
                    "main",
                    vec![
                        AstNode::Definition(
                            ident("r"),
                            Box::new(AstNode::Message(ident("A"), 0)),
                        ),
                        AstNode::Await(Box::new(AstNode::Identifier(ident("r")))),
                        AstNode::Return(Box::new(AstNode::Operator(
                            BinOp::Add,
                            Box::new(AstNode::Identifier(ident("r"))),
                            Box::new(AstNode::Value(Hvalue::Hu8(1))),
                        ))),
                    ],
                )],
            ),
        ],
    }
}

#[test]
fn s6_await_resolves_promise() {
    let shape = Module {
        entity_defs: vec![entity("A", &[], vec![]), entity("B", &[], vec![])],
    };
    let binary = build(s6_module());
    let mut vat = vat_for(&shape, &binary);

    // Start B.main; it sends a request to A and suspends on the promise.
    let start = Msg {
        src_address: EntityAddress { node_id: 0, vat_id: 0, entity_id: 1 },
        dst_address: EntityAddress { node_id: 0, vat_id: 0, entity_id: 1 },
        contents: MsgContents::BigBang {
            args: Vec::new(),
            function_id: 1,
            function_name: b"main".to_vec(),
        },
    };
    let out = run_msg(&binary, &mut vat, &start, &mut NoHost, FUEL).expect("start should run");
    assert!(out.is_none());
    assert_eq!(vat.outbox.len(), 1);
    assert!(!vat.promise_stack[0].resolved);
    assert_eq!(vat.promise_stack[0].on_resolve.len(), 1);
    assert_eq!(vat.promise_stack[0].var_names[0], b"r".to_vec());

    // Deliver the outbound request to A (the bootstrap entity, id 0).
    let req = vat.outbox.remove(0);
    let src_promise = match req.contents {
        MsgContents::Request { src_promise, .. } => src_promise,
        _ => panic!("expected a request"),
    };
    assert_eq!(src_promise, Some(0));
    assert_eq!(req.dst_address.entity_id, 0);
    let reply = run_msg(&binary, &mut vat, &req, &mut NoHost, FUEL)
        .expect("ping should run")
        .expect("ping should respond");
    match &reply.contents {
        MsgContents::Response { result, dst_promise } => {
            assert_eq!(*result, Hvalue::Hu8(9));
            assert_eq!(*dst_promise, Some(0));
        },
        _ => panic!("expected a response"),
    }

    // Deliver the response: the promise resolves exactly once and every
    // recorded resumption is drained.
    run_msg(&binary, &mut vat, &reply, &mut NoHost, FUEL).expect("response should run");
    assert!(vat.promise_stack[0].resolved);
    assert_eq!(vat.promise_stack[0].on_resolve.len(), 0);

    // A second response to the same promise is a no-op.
    let again = run_msg(&binary, &mut vat, &reply, &mut NoHost, FUEL).expect("no-op");
    assert!(again.is_none());
    assert!(vat.promise_stack[0].resolved);
}

#[test]
fn s6_resumption_value() {
    // Drive the resumption by hand to observe B's final value: U8(10).
    let shape = Module {
        entity_defs: vec![entity("A", &[], vec![]), entity("B", &[], vec![])],
    };
    let binary = build(s6_module());
    let mut vat = vat_for(&shape, &binary);

    let start = Msg {
        src_address: EntityAddress { node_id: 0, vat_id: 0, entity_id: 1 },
        dst_address: EntityAddress { node_id: 0, vat_id: 0, entity_id: 1 },
        contents: MsgContents::BigBang {
            args: Vec::new(),
            function_id: 1,
            function_name: b"main".to_vec(),
        },
    };
    run_msg(&binary, &mut vat, &start, &mut NoHost, FUEL).expect("start should run");

    // Resolve the promise as the scheduler would, then resume and observe
    // the value the resumed computation returns.
    let ip = vat.promise_stack[0].on_resolve[0];
    vat.promise_stack[0].resolved = true;
    let name = vat.promise_stack[0].var_names[0].clone();
    vat.store_local(&name, Hvalue::Hu8(9)).expect("binding should land in the frame");
    let resumed = run_expr(ip, &mut vat, &start, &mut NoHost, &binary, FUEL)
        .expect("resumption should run");
    assert_eq!(resumed, Some(Hvalue::Hu8(10)));
}

#[test]
fn entity_field_assignment() {
    // n = 5; return n, with n entity-scoped: the store must hit the
    // entity's data, not a local.
    let module = Module {
        entity_defs: vec![entity(
            "Main",
            &["n"],
            vec![func(
                "main",
                vec![
                    AstNode::Assignment(
                        ident("n"),
                        Box::new(AstNode::Value(Hvalue::Hu8(5))),
                    ),
                    AstNode::Return(Box::new(AstNode::Identifier(ident("n")))),
                ],
            )],
        )],
    };
    let shape = Module {
        entity_defs: vec![entity("Main", &["n"], vec![])],
    };
    let binary = build(module);
    let mut vat = vat_for(&shape, &binary);
    assert_eq!(run_request(&binary, &mut vat, 0, 0), Hvalue::Hu8(5));
}

#[test]
fn await_without_binding() {
    // An awaited promise never stored in a variable records no name; its
    // resolution resumes without binding anything.
    let module = Module {
        entity_defs: vec![entity(
            "Main",
            &[],
            vec![func(
                "main",
                vec![AstNode::Await(Box::new(AstNode::Message(ident("Main"), 0)))],
            )],
        )],
    };
    let shape = Module {
        entity_defs: vec![entity("Main", &[], vec![])],
    };
    let binary = build(module);
    let mut vat = vat_for(&shape, &binary);
    let start = Msg {
        src_address: EntityAddress { node_id: 0, vat_id: 0, entity_id: 0 },
        dst_address: EntityAddress { node_id: 0, vat_id: 0, entity_id: 0 },
        contents: MsgContents::BigBang {
            args: Vec::new(),
            function_id: 0,
            function_name: b"main".to_vec(),
        },
    };
    let out = run_msg(&binary, &mut vat, &start, &mut NoHost, FUEL).expect("start should run");
    assert!(out.is_none());
    assert!(!vat.promise_stack[0].resolved);
    assert_eq!(vat.promise_stack[0].var_names.len(), 0);
    let reply = Msg {
        src_address: EntityAddress { node_id: 0, vat_id: 0, entity_id: 0 },
        dst_address: EntityAddress { node_id: 0, vat_id: 0, entity_id: 0 },
        contents: MsgContents::Response { result: Hvalue::Hu8(1), dst_promise: Some(0) },
    };
    run_msg(&binary, &mut vat, &reply, &mut NoHost, FUEL).expect("response should run");
    assert!(vat.promise_stack[0].resolved);
    assert_eq!(vat.promise_stack[0].on_resolve.len(), 0);
}

#[test]
fn division_by_zero_is_fatal() {
    let module = Module {
        entity_defs: vec![entity(
            "Main",
            &[],
            vec![func(
                "main",
                vec![AstNode::Return(Box::new(AstNode::Operator(
                    BinOp::Div,
                    Box::new(AstNode::Value(Hvalue::Hu8(8))),
                    Box::new(AstNode::Value(Hvalue::Hu8(0))),
                )))],
            )],
        )],
    };
    let shape = Module {
        entity_defs: vec![entity("Main", &[], vec![])],
    };
    let binary = build(module);
    let mut vat = vat_for(&shape, &binary);
    let msg = request(0, 0);
    assert_eq!(
        run_msg(&binary, &mut vat, &msg, &mut NoHost, FUEL),
        Err(VmError::DivisionByZero)
    );
}

#[test]
fn division_truncates() {
    let module = Module {
        entity_defs: vec![entity(
            "Main",
            &[],
            vec![func(
                "main",
                vec![AstNode::Return(Box::new(AstNode::Operator(
                    BinOp::Div,
                    Box::new(AstNode::Value(Hvalue::Hu8(9))),
                    Box::new(AstNode::Value(Hvalue::Hu8(2))),
                )))],
            )],
        )],
    };
    let shape = Module {
        entity_defs: vec![entity("Main", &[], vec![])],
    };
    let binary = build(module);
    let mut vat = vat_for(&shape, &binary);
    assert_eq!(run_request(&binary, &mut vat, 0, 0), Hvalue::Hu8(4));
}

#[test]
fn subtraction_uses_left_minus_right() {
    // 7 - 3 must be 4, not 252: operands apply left-to-right.
    let module = Module {
        entity_defs: vec![entity(
            "Main",
            &[],
            vec![func(
                "main",
                vec![AstNode::Return(Box::new(AstNode::Operator(
                    BinOp::Sub,
                    Box::new(AstNode::Value(Hvalue::Hu8(7))),
                    Box::new(AstNode::Value(Hvalue::Hu8(3))),
                )))],
            )],
        )],
    };
    let shape = Module {
        entity_defs: vec![entity("Main", &[], vec![])],
    };
    let binary = build(module);
    let mut vat = vat_for(&shape, &binary);
    assert_eq!(run_request(&binary, &mut vat, 0, 0), Hvalue::Hu8(4));
}

#[test]
fn addition_wraps_modulo_256() {
    let module = Module {
        entity_defs: vec![entity(
            "Main",
            &[],
            vec![func(
                "main",
                vec![AstNode::Return(Box::new(AstNode::Operator(
                    BinOp::Add,
                    Box::new(AstNode::Value(Hvalue::Hu8(250))),
                    Box::new(AstNode::Value(Hvalue::Hu8(10))),
                )))],
            )],
        )],
    };
    let shape = Module {
        entity_defs: vec![entity("Main", &[], vec![])],
    };
    let binary = build(module);
    let mut vat = vat_for(&shape, &binary);
    assert_eq!(run_request(&binary, &mut vat, 0, 0), Hvalue::Hu8(4));
}

#[test]
fn unresolved_identifier_is_a_compile_error() {
    let mut module = Module {
        entity_defs: vec![entity(
            "Main",
            &[],
            vec![func(
                "main",
                vec![AstNode::Return(Box::new(AstNode::Identifier(ident("ghost_var"))))],
            )],
        )],
    };
    assert_eq!(compile(&mut module), Err(CompileError::UnresolvedIdentifier));
}

#[test]
fn resolver_tags_every_identifier() {
    let mut module = Module {
        entity_defs: vec![entity(
            "Main",
            &["n"],
            vec![func(
                "main",
                vec![
                    AstNode::Definition(
                        ident("x"),
                        Box::new(AstNode::Value(Hvalue::Hu8(1))),
                    ),
                    AstNode::Return(Box::new(AstNode::Operator(
                        BinOp::Add,
                        Box::new(AstNode::Identifier(ident("x"))),
                        Box::new(AstNode::Identifier(ident("n"))),
                    ))),
                ],
            )],
        )],
    };
    resolve_module(&mut module).expect("resolution should succeed");
    let body = &module.entity_defs[0].functions[0].body;
    match &body[0] {
        AstNode::Definition(id, _) => assert_eq!(id.target, IdentifierTarget::LocalVar),
        _ => panic!("expected a definition"),
    }
    match &body[1] {
        AstNode::Return(e) => match e.as_ref() {
            AstNode::Operator(_, l, r) => {
                match l.as_ref() {
                    AstNode::Identifier(id) => {
                        assert_eq!(id.target, IdentifierTarget::LocalVar)
                    },
                    _ => panic!("expected an identifier"),
                }
                match r.as_ref() {
                    AstNode::Identifier(id) => {
                        assert_eq!(id.target, IdentifierTarget::EntityVar)
                    },
                    _ => panic!("expected an identifier"),
                }
            },
            _ => panic!("expected an operator"),
        },
        _ => panic!("expected a return"),
    }
}

#[test]
fn compile_is_deterministic() {
    let b1 = build(s6_module());
    let b2 = build(s6_module());
    assert_eq!(b1, b2);
}

#[test]
fn missing_function_is_an_error() {
    let module = Module {
        entity_defs: vec![entity(
            "Main",
            &[],
            vec![func(
                "main",
                vec![AstNode::Return(Box::new(AstNode::Value(Hvalue::Hu8(1))))],
            )],
        )],
    };
    let shape = Module {
        entity_defs: vec![entity("Main", &[], vec![])],
    };
    let binary = build(module);
    let mut vat = vat_for(&shape, &binary);
    let msg = request(0, 7);
    assert_eq!(
        run_msg(&binary, &mut vat, &msg, &mut NoHost, FUEL),
        Err(VmError::MissingFunction)
    );
}

#[test]
fn response_to_unknown_promise_is_promise_misuse() {
    let module = Module {
        entity_defs: vec![entity(
            "Main",
            &[],
            vec![func(
                "main",
                vec![AstNode::Return(Box::new(AstNode::Value(Hvalue::Hu8(1))))],
            )],
        )],
    };
    let shape = Module {
        entity_defs: vec![entity("Main", &[], vec![])],
    };
    let binary = build(module);
    let mut vat = vat_for(&shape, &binary);
    let msg = Msg {
        src_address: EntityAddress { node_id: 0, vat_id: 0, entity_id: 0 },
        dst_address: EntityAddress { node_id: 0, vat_id: 0, entity_id: 0 },
        contents: MsgContents::Response { result: Hvalue::Hu8(1), dst_promise: Some(3) },
    };
    assert_eq!(
        run_msg(&binary, &mut vat, &msg, &mut NoHost, FUEL),
        Err(VmError::PromiseMisuse)
    );
}

#[test]
fn unsorted_functions_are_rejected() {
    let mut module = Module {
        entity_defs: vec![entity(
            "Main",
            &[],
            vec![
                func("zz", vec![AstNode::Return(Box::new(AstNode::Value(Hvalue::Hu8(1))))]),
                func("aa", vec![AstNode::Return(Box::new(AstNode::Value(Hvalue::Hu8(2))))]),
            ],
        )],
    };
    assert_eq!(compile(&mut module), Err(CompileError::FunctionsUnsorted));
}

#[test]
fn function_table_round_trip() {
    let binary = build(s6_module());
    let mut z = 0usize;
    load_entity_data_table(&mut z, &binary).expect("data table should parse");
    let table = load_entity_function_table(&mut z, &binary).expect("function table should parse");
    assert_eq!(table.rows.len(), 2);
    assert_eq!(table.rows[0].entity_id, 0);
    assert_eq!(table.rows[0].func_id, 0);
    assert_eq!(table.rows[1].entity_id, 1);
    assert_eq!(table.rows[1].func_id, 1);
    for row in table.rows.iter() {
        assert!(row.start + row.len <= binary.len());
    }
}
