//! The interpreter and the per-message scheduler: a stack machine over a
//! vat's operand and call stacks, with promise-based suspension and
//! resumption.

use vstd::prelude::*;
use vstd::std_specs::vec::vec_index_mut;
use crate::opcodes::{Hvalue, Op, OpG, VmError, decode_instruction, spec_decode_op};
use crate::ast::BinOp;
use crate::vm_core::{
    Vat, Msg, MsgContents, Entity, EntityAddress, StackFrame, Promise, VarTable, clone_bytes,
};
use crate::pbin::{load_entity_data_table, load_entity_function_table, spec_lookup, spec_parse_data_table, spec_parse_func_table};

verus! {

/// A table of host-provided functions, keyed by their registered byte id.
/// `ForeignCall` escapes to one of these; it runs synchronously within the
/// vat and may read and write the current entity's data.
pub trait ForeignHost {
    fn call_foreign(&mut self, func_id: u8, entity: &mut Entity, arg: Hvalue) -> Hvalue;
}

/// Arithmetic over `U8` values: add, subtract and multiply wrap modulo 256;
/// division truncates and is only defined for a non-zero divisor.
pub open spec fn eval_arith(k: BinOp, a: u8, b: u8) -> u8 {
    match k {
        BinOp::Add => ((a + b) % 256) as u8,
        BinOp::Sub => ((a - b + 256) % 256) as u8,
        BinOp::Mul => ((a * b) % 256) as u8,
        BinOp::Div => if b == 0 {
            0
        } else {
            (a as int / b as int) as u8
        },
    }
}

/// Computes `eval_arith` on machine integers.
fn arith_u8(k: BinOp, a: u8, b: u8) -> (r: u8)
    requires
        k == BinOp::Div ==> b != 0,
    ensures
        r == eval_arith(k, a, b),
{
    match k {
        BinOp::Add => (((a as u16) + (b as u16)) % 256) as u8,
        BinOp::Sub => (((a as u16) + 256 - (b as u16)) % 256) as u8,
        BinOp::Mul => {
            proof {
                assert((a as u32) * (b as u32) <= 65025) by (nonlinear_arith)
                    requires a <= 255 && b <= 255;
            }
            (((a as u32) * (b as u32)) % 256) as u8
        },
        BinOp::Div => a / b,
    }
}

/// Copies a value stack.
fn clone_values(v: &Vec<Hvalue>) -> (r: Vec<Hvalue>)
    ensures
        r@ == v@,
{
    let mut out: Vec<Hvalue> = Vec::new();
    let mut i: usize = 0;
    while i < v.len()
        invariant
            i <= v@.len(),
            out@ == v@.subrange(0, i as int),
        decreases v@.len() - i,
    {
        out.push(v[i]);
        i = i + 1;
        proof {
            assert(v@.subrange(0, i as int) =~= v@.subrange(0, i - 1) + seq![v@[i - 1]]);
        }
    }
    proof {
        assert(v@.subrange(0, v@.len() as int) =~= v@);
    }
    out
}

/// Frames that agree on locals and return address.
pub open spec fn frame_eq(a: StackFrame, b: StackFrame) -> bool {
    a.locals@ == b.locals@ && a.return_address == b.return_address
}

/// Frame stacks that agree pointwise.
pub open spec fn frames_eq(a: Seq<StackFrame>, b: Seq<StackFrame>) -> bool {
    a.len() == b.len() && forall|i: int| 0 <= i < a.len() ==> frame_eq(#[trigger] a[i], b[i])
}

/// Copies a call stack.
fn clone_frames(v: &Vec<StackFrame>) -> (r: Vec<StackFrame>)
    ensures
        frames_eq(r@, v@),
{
    let mut out: Vec<StackFrame> = Vec::new();
    let mut i: usize = 0;
    while i < v.len()
        invariant
            i <= v@.len(),
            out@.len() == i,
            forall|j: int| 0 <= j < i ==> frame_eq(#[trigger] out@[j], v@[j]),
        decreases v@.len() - i,
    {
        let f = &v[i];
        out.push(StackFrame { locals: f.locals.duplicate(), return_address: f.return_address });
        i = i + 1;
    }
    out
}

/// Copies a list of instruction offsets.
fn clone_usizes(v: &Vec<usize>) -> (r: Vec<usize>)
    ensures
        r@ == v@,
{
    let mut out: Vec<usize> = Vec::new();
    let mut i: usize = 0;
    while i < v.len()
        invariant
            i <= v@.len(),
            out@ == v@.subrange(0, i as int),
        decreases v@.len() - i,
    {
        out.push(v[i]);
        i = i + 1;
        proof {
            assert(v@.subrange(0, i as int) =~= v@.subrange(0, i - 1) + seq![v@[i - 1]]);
        }
    }
    proof {
        assert(v@.subrange(0, v@.len() as int) =~= v@);
    }
    out
}

/// The name an outbound request is addressed to.
fn main_name() -> (r: Vec<u8>)
    ensures
        r@ == seq![109u8, 97u8, 105u8, 110u8],
{
    let mut v: Vec<u8> = Vec::new();
    v.push(109);
    v.push(97);
    v.push(105);
    v.push(110);
    proof {
        assert(v@ =~= seq![109u8, 97u8, 105u8, 110u8]);
    }
    v
}

/// A message the interpreter may emit: a request from `src` to the bootstrap
/// entity, carrying a fresh source promise.
pub open spec fn outbound_request_ok(m: Msg, src: EntityAddress) -> bool {
    &&& m.src_address == src
    &&& m.dst_address == (EntityAddress { node_id: 0, vat_id: 0, entity_id: 0 })
    &&& m.contents matches MsgContents::Request { args, src_promise, .. } && args@.len() == 0
        && src_promise is Some
}

/// How a promise table may change while the interpreter runs: existing
/// promises keep their resolution state, a resolved promise keeps its
/// drained resumption list, and every new promise starts unresolved.
pub open spec fn promises_evolve(before: Seq<Promise>, after: Seq<Promise>) -> bool {
    &&& after.len() >= before.len()
    &&& forall|i: int| 0 <= i < before.len()
        ==> (#[trigger] after[i]).resolved == before[i].resolved
            && (before[i].resolved ==> after[i].on_resolve@ == before[i].on_resolve@)
    &&& forall|i: int| before.len() <= i < after.len() ==> !(#[trigger] after[i]).resolved
}

/// The parts of a vat the interpreter never invents or destroys: its
/// entities (by count), its identity, its inbox; its outbox only grows and
/// its promises only evolve.
pub open spec fn vat_frame(before: Vat, after: Vat) -> bool {
    &&& after.entities@.len() == before.entities@.len()
    &&& after.vat_id == before.vat_id
    &&& after.last_entity_id == before.last_entity_id
    &&& after.inbox == before.inbox
    &&& after.outbox@.len() >= before.outbox@.len()
    &&& after.outbox@.subrange(0, before.outbox@.len() as int) == before.outbox@
    &&& promises_evolve(before.promise_stack@, after.promise_stack@)
}

/// The mathematical shape of one call frame.
#[verifier::ext_equal]
pub struct FrameG {
    pub locals: Map<Seq<u8>, Hvalue>,
    pub return_address: Option<usize>,
}

/// The mathematical shape of one promise.
#[verifier::ext_equal]
pub struct PromiseG {
    pub resolved: bool,
    pub on_resolve: Seq<usize>,
    pub save_ops: Seq<Hvalue>,
    pub save_frames: Seq<FrameG>,
    pub var_names: Seq<Seq<u8>>,
}

/// An outbound request the machine has emitted: its source address, the
/// callee's function id, and the fresh promise awaiting the response.
#[verifier::ext_equal]
pub struct ReqG {
    pub src: EntityAddress,
    pub function_id: u32,
    pub src_promise: u8,
}

/// The interpreter's state, mathematically: the instruction pointer, the
/// operand and call stacks, the promise table, each entity's data, and the
/// requests emitted so far in this run.
#[verifier::ext_equal]
pub struct StG {
    pub ip: int,
    pub ops: Seq<Hvalue>,
    pub frames: Seq<FrameG>,
    pub promises: Seq<PromiseG>,
    pub data: Seq<Map<Seq<u8>, Hvalue>>,
    pub sent: Seq<ReqG>,
}

pub open spec fn frame_view(f: StackFrame) -> FrameG {
    FrameG { locals: f.locals@, return_address: f.return_address }
}

pub open spec fn frames_view(s: Seq<StackFrame>) -> Seq<FrameG> {
    s.map_values(|f: StackFrame| frame_view(f))
}

pub open spec fn promise_view(p: Promise) -> PromiseG {
    PromiseG {
        resolved: p.resolved,
        on_resolve: p.on_resolve@,
        save_ops: p.save_point.0@,
        save_frames: frames_view(p.save_point.1@),
        var_names: p.var_names@.map_values(|n: Vec<u8>| n@),
    }
}

pub open spec fn promises_view(s: Seq<Promise>) -> Seq<PromiseG> {
    s.map_values(|p: Promise| promise_view(p))
}

/// The state a run starts from: a vat's stacks, promises and entity data,
/// with the instruction pointer at `ip` and nothing sent yet.
pub open spec fn vat_state(vat: Vat, ip: int, sent: Seq<ReqG>) -> StG {
    StG {
        ip,
        ops: vat.op_stack@,
        frames: frames_view(vat.call_stack@),
        promises: promises_view(vat.promise_stack@),
        data: entities_data(vat.entities@),
        sent,
    }
}

/// A just-created promise.
pub open spec fn fresh_promise_g() -> PromiseG {
    PromiseG {
        resolved: false,
        on_resolve: Seq::empty(),
        save_ops: Seq::empty(),
        save_frames: Seq::empty(),
        var_names: Seq::empty(),
    }
}

/// The message that carries an emitted request: addressed to the bootstrap
/// entity, no arguments, the conventional callee name, and the fresh
/// source promise.
pub open spec fn req_matches(m: Msg, rq: ReqG) -> bool {
    &&& m.src_address == rq.src
    &&& m.dst_address == (EntityAddress { node_id: 0, vat_id: 0, entity_id: 0 })
    &&& m.contents matches MsgContents::Request { args, function_id, function_name, src_promise }
        && args@.len() == 0 && function_id == rq.function_id
        && function_name@ == seq![109u8, 97u8, 105u8, 110u8]
        && src_promise == Some(rq.src_promise)
}

/// One step's outcome: continue, terminate the message (outermost `Ret`),
/// suspend on an unresolved promise, fail, or escape to a host function,
/// after which the machine's state is no longer a function of its inputs.
pub enum StepG {
    Cont(StG),
    Halt(StG),
    Suspend(StG),
    Abort(VmError),
    Host,
}

/// One arithmetic step: both operands popped, the wrapped result pushed.
pub open spec fn arith_step(st: StG, q: int, k: BinOp) -> StepG {
    if st.ops.len() < 2 {
        StepG::Abort(VmError::StackUnderflow)
    } else {
        let lhs = st.ops[st.ops.len() - 2];
        let rhs = st.ops.last();
        match (lhs, rhs) {
            (Hvalue::Hu8(a), Hvalue::Hu8(b)) => if k == BinOp::Div && b == 0 {
                StepG::Abort(VmError::DivisionByZero)
            } else {
                StepG::Cont(
                    StG {
                        ip: q,
                        ops: st.ops.drop_last().drop_last().push(Hvalue::Hu8(eval_arith(k, a, b))),
                        ..st
                    },
                )
            },
            _ => StepG::Abort(VmError::TypeMismatch),
        }
    }
}

/// The small-step semantics of one instruction at `st.ip`, executed on
/// behalf of the entity `selfaddr` addresses.
pub open spec fn spec_step(code: Seq<u8>, selfaddr: EntityAddress, st: StG) -> StepG {
    let eid = selfaddr.entity_id as int;
    match spec_decode_op(code, st.ip) {
        None => StepG::Abort(VmError::InvalidOpcode),
        Some((op, q)) => match op {
            OpG::Push(v) => StepG::Cont(StG { ip: q, ops: st.ops.push(v), ..st }),
            OpG::Add => arith_step(st, q, BinOp::Add),
            OpG::Sub => arith_step(st, q, BinOp::Sub),
            OpG::Mul => arith_step(st, q, BinOp::Mul),
            OpG::Div => arith_step(st, q, BinOp::Div),
            OpG::Lload(n) => if st.frames.len() == 0 {
                StepG::Abort(VmError::StackUnderflow)
            } else if st.frames.last().locals.contains_key(n) {
                StepG::Cont(StG { ip: q, ops: st.ops.push(st.frames.last().locals[n]), ..st })
            } else {
                StepG::Abort(VmError::UnboundName)
            },
            OpG::Lstore(n) => if st.ops.len() == 0 {
                StepG::Abort(VmError::StackUnderflow)
            } else {
                let v = st.ops.last();
                let bad_promise = v matches Hvalue::HPromise(p) && p as int >= st.promises.len();
                if bad_promise {
                    StepG::Abort(VmError::PromiseMisuse)
                } else if st.frames.len() == 0 {
                    StepG::Abort(VmError::StackUnderflow)
                } else {
                    let promises = match v {
                        Hvalue::HPromise(p) => st.promises.update(
                            p as int,
                            PromiseG {
                                var_names: st.promises[p as int].var_names.push(n),
                                ..st.promises[p as int]
                            },
                        ),
                        _ => st.promises,
                    };
                    let top = st.frames.len() - 1;
                    StepG::Cont(
                        StG {
                            ip: q,
                            ops: st.ops.drop_last(),
                            frames: st.frames.update(
                                top as int,
                                FrameG {
                                    locals: st.frames.last().locals.insert(n, v),
                                    return_address: st.frames.last().return_address,
                                },
                            ),
                            promises,
                            ..st
                        },
                    )
                }
            },
            OpG::Eload(n) => if eid >= st.data.len() {
                StepG::Abort(VmError::MissingEntity)
            } else if st.data[eid].contains_key(n) {
                StepG::Cont(StG { ip: q, ops: st.ops.push(st.data[eid][n]), ..st })
            } else {
                StepG::Abort(VmError::UnboundName)
            },
            OpG::Estore(n) => if eid >= st.data.len() {
                StepG::Abort(VmError::MissingEntity)
            } else if st.ops.len() == 0 {
                StepG::Abort(VmError::StackUnderflow)
            } else {
                StepG::Cont(
                    StG {
                        ip: q,
                        ops: st.ops.drop_last(),
                        data: st.data.update(eid, st.data[eid].insert(n, st.ops.last())),
                        ..st
                    },
                )
            },
            OpG::Message(a0) => if st.promises.len() >= 256 {
                StepG::Abort(VmError::PromiseTableFull)
            } else {
                StepG::Cont(
                    StG {
                        ip: q,
                        ops: st.ops.push(Hvalue::HPromise(st.promises.len() as u8)),
                        promises: st.promises.push(fresh_promise_g()),
                        sent: st.sent.push(
                            ReqG {
                                src: selfaddr,
                                function_id: a0 as u32,
                                src_promise: st.promises.len() as u8,
                            },
                        ),
                        ..st
                    },
                )
            },
            OpG::Await => if st.ops.len() == 0 {
                StepG::Abort(VmError::StackUnderflow)
            } else {
                match st.ops.last() {
                    Hvalue::HPromise(p) => if p as int >= st.promises.len() {
                        StepG::Abort(VmError::PromiseMisuse)
                    } else if st.promises[p as int].resolved {
                        StepG::Cont(StG { ip: q, ops: st.ops.drop_last(), ..st })
                    } else {
                        StepG::Suspend(
                            StG {
                                ip: q,
                                ops: st.ops.drop_last(),
                                promises: st.promises.update(
                                    p as int,
                                    PromiseG {
                                        on_resolve: st.promises[p as int].on_resolve.push(
                                            q as usize,
                                        ),
                                        save_ops: st.ops.drop_last(),
                                        save_frames: st.frames,
                                        ..st.promises[p as int]
                                    },
                                ),
                                ..st
                            },
                        )
                    },
                    _ => StepG::Abort(VmError::PromiseMisuse),
                }
            },
            OpG::Ret => if st.frames.len() == 0 {
                StepG::Abort(VmError::StackUnderflow)
            } else {
                match st.frames.last().return_address {
                    Some(ra) => StepG::Cont(
                        StG { ip: ra as int, frames: st.frames.drop_last(), ..st },
                    ),
                    None => StepG::Halt(StG { ip: q, frames: st.frames.drop_last(), ..st }),
                }
            },
            OpG::ForeignCall(_) => if eid >= st.data.len() {
                StepG::Abort(VmError::MissingEntity)
            } else {
                StepG::Host
            },
            OpG::Nop => StepG::Cont(StG { ip: q, ..st }),
        },
    }
}

/// A whole run's outcome: termination with the message's result value,
/// suspension, failure, or an escape to a host function. `RHost` carries
/// the machine state at the host call: the host receives the addressed
/// entity — whose data is that state's entry for it — and the argument
/// `HNone`; from there on the state is no longer a function of the inputs.
pub enum RunG {
    RDone(Hvalue, StG),
    RYield(StG),
    RFail(VmError),
    RHost(StG),
}

/// Termination: an empty operand stack yields `HNone`, a single residual
/// value is the result, more than one residual value is an invalid program.
pub open spec fn finish_g(st: StG) -> RunG {
    if st.ops.len() > 1 {
        RunG::RFail(VmError::InvalidProgram)
    } else {
        RunG::RDone(
            if st.ops.len() == 1 {
                st.ops[0]
            } else {
                Hvalue::HNone
            },
            StG { ops: Seq::empty(), ..st },
        )
    }
}

/// The big-step semantics: run from `st` until the code ends, an outermost
/// `Ret` terminates the message, an `Await` suspends, an error kills the
/// message, the step budget runs out, or a host function is called.
pub open spec fn spec_run(code: Seq<u8>, selfaddr: EntityAddress, st: StG, fuel: nat) -> RunG
    decreases fuel,
{
    if st.ip >= code.len() {
        finish_g(st)
    } else if fuel == 0 {
        RunG::RFail(VmError::StepLimit)
    } else {
        match spec_step(code, selfaddr, st) {
            StepG::Cont(st2) => spec_run(code, selfaddr, st2, (fuel - 1) as nat),
            StepG::Halt(st2) => finish_g(st2),
            StepG::Suspend(st2) => RunG::RYield(st2),
            StepG::Abort(e) => RunG::RFail(e),
            StepG::Host => RunG::RHost(st),
        }
    }
}

/// The vat after a run matches the machine's final state, and its outbox
/// grew by exactly the emitted requests.
pub open spec fn final_matches(before: Vat, after: Vat, st: StG) -> bool {
    &&& after.op_stack@ == st.ops
    &&& frames_view(after.call_stack@) == st.frames
    &&& promises_view(after.promise_stack@) == st.promises
    &&& entities_data(after.entities@) == st.data
    &&& after.outbox@.len() == before.outbox@.len() + st.sent.len()
    &&& forall|k: int| 0 <= k < st.sent.len()
        ==> req_matches(#[trigger] after.outbox@[before.outbox@.len() + k], st.sent[k])
    &&& forall|i: int| 0 <= i < after.entities@.len()
        ==> (#[trigger] after.entities@[i]).address == before.entities@[i].address
            && after.entities@[i].code_id == before.entities@[i].code_id
}

proof fn lemma_frames_view_push(s: Seq<StackFrame>, f: StackFrame)
    ensures
        frames_view(s.push(f)) == frames_view(s).push(frame_view(f)),
{
    assert(frames_view(s.push(f)) =~= frames_view(s).push(frame_view(f)));
}

proof fn lemma_frames_view_drop(s: Seq<StackFrame>)
    requires
        s.len() > 0,
    ensures
        frames_view(s.drop_last()) == frames_view(s).drop_last(),
{
    assert(frames_view(s.drop_last()) =~= frames_view(s).drop_last());
}

proof fn lemma_frames_eq_view(a: Seq<StackFrame>, b: Seq<StackFrame>)
    requires
        frames_eq(a, b),
    ensures
        frames_view(a) == frames_view(b),
{
    assert(frames_view(a) =~~= frames_view(b));
}

proof fn lemma_promises_view_update(s: Seq<Promise>, i: int, p: Promise)
    requires
        0 <= i < s.len(),
    ensures
        promises_view(s.update(i, p)) == promises_view(s).update(i, promise_view(p)),
{
    assert(promises_view(s.update(i, p)) =~= promises_view(s).update(i, promise_view(p)));
}

proof fn lemma_promises_view_push(s: Seq<Promise>, p: Promise)
    ensures
        promises_view(s.push(p)) == promises_view(s).push(promise_view(p)),
{
    assert(promises_view(s.push(p)) =~= promises_view(s).push(promise_view(p)));
}

proof fn lemma_entities_data_update(s: Seq<Entity>, i: int, e: Entity)
    requires
        0 <= i < s.len(),
    ensures
        entities_data(s.update(i, e)) == entities_data(s).update(i, e.data@),
{
    assert(entities_data(s.update(i, e)) =~= entities_data(s).update(i, e.data@));
}

proof fn lemma_names_view_push(v: Seq<Vec<u8>>, n: Vec<u8>)
    ensures
        v.push(n).map_values(|m: Vec<u8>| m@) == v.map_values(|m: Vec<u8>| m@).push(n@),
{
    assert(v.push(n).map_values(|m: Vec<u8>| m@) =~= v.map_values(|m: Vec<u8>| m@).push(n@));
}

/// A fresh `Promise` has the fresh promise's mathematical shape.
proof fn lemma_fresh_promise_view(p: Promise)
    requires
        !p.resolved,
        p.on_resolve@.len() == 0,
        p.save_point.0@.len() == 0,
        p.save_point.1@.len() == 0,
        p.var_names@.len() == 0,
    ensures
        promise_view(p) == fresh_promise_g(),
{
    assert(promise_view(p) =~~= fresh_promise_g());
}

/// Pops the message result off the operand stack at termination: an empty
/// stack yields `HNone`, a single residual value is the result, and more
/// than one residual value marks an invalid program.
fn finish_run(vat: &mut Vat) -> (r: Result<Option<Hvalue>, VmError>)
    ensures
        final(vat).entities == old(vat).entities,
        final(vat).vat_id == old(vat).vat_id,
        final(vat).last_entity_id == old(vat).last_entity_id,
        final(vat).inbox == old(vat).inbox,
        final(vat).outbox == old(vat).outbox,
        final(vat).call_stack == old(vat).call_stack,
        final(vat).promise_stack == old(vat).promise_stack,
        match r {
            Ok(Some(v)) => old(vat).op_stack@.len() <= 1 && final(vat).op_stack@.len() == 0
                && v == if old(vat).op_stack@.len() == 1 {
                    old(vat).op_stack@[0]
                } else {
                    Hvalue::HNone
                },
            Ok(None) => false,
            Err(e) => old(vat).op_stack@.len() > 1 && e == VmError::InvalidProgram
                && final(vat).op_stack == old(vat).op_stack,
        },
{
    if vat.op_stack.len() > 1 {
        return Err(VmError::InvalidProgram);
    }
    match vat.op_stack.pop() {
        Some(v) => Ok(Some(v)),
        None => Ok(Some(Hvalue::HNone)),
    }
}

/// Executes instructions from `start_addr` until the code ends, an
/// outermost `Ret` terminates the message, an `Await` on an unresolved
/// promise yields (`Ok(None)`), or an error kills the message. `fuel`
/// bounds the number of executed instructions; a program still running when
/// it is spent fails with `StepLimit`.
///
/// The result and the final vat are exactly what `spec_run` prescribes for
/// the starting state, unless the run reaches a `ForeignCall`: the host's
/// answer comes through the contract-free `ForeignHost` trait, so from
/// there on only the frame conditions are promised.
#[verifier::loop_isolation(false)]
pub fn run_expr<H: ForeignHost>(
    start_addr: usize,
    vat: &mut Vat,
    msg: &Msg,
    host: &mut H,
    code: &Vec<u8>,
    fuel: usize,
) -> (r: Result<Option<Hvalue>, VmError>)
    ensures
        vat_frame(*old(vat), *final(vat)),
        forall|j: int| old(vat).outbox@.len() <= j < final(vat).outbox@.len()
            ==> outbound_request_ok(#[trigger] final(vat).outbox@[j], msg.dst_address),
        r matches Ok(Some(_)) ==> final(vat).op_stack@.len() == 0,
        match spec_run(
            code@,
            msg.dst_address,
            vat_state(*old(vat), start_addr as int, Seq::empty()),
            fuel as nat,
        ) {
            RunG::RDone(v, st) => r == Ok::<Option<Hvalue>, VmError>(Some(v))
                && final_matches(*old(vat), *final(vat), st),
            RunG::RYield(st) => r == Ok::<Option<Hvalue>, VmError>(None)
                && final_matches(*old(vat), *final(vat), st),
            RunG::RFail(e) => r == Err::<Option<Hvalue>, VmError>(e),
            RunG::RHost(st) => true,
        },
{
    let ghost init_run = spec_run(
        code@,
        msg.dst_address,
        vat_state(*old(vat), start_addr as int, Seq::empty()),
        fuel as nat,
    );
    let ghost mut sent: Seq<ReqG> = Seq::empty();
    let mut x = start_addr;
    let mut steps = fuel;
    proof {
        assert(vat.outbox@.subrange(0, vat.outbox@.len() as int) =~= vat.outbox@);
    }
    loop
        invariant
            vat_frame(*old(vat), *vat),
            forall|j: int| old(vat).outbox@.len() <= j < vat.outbox@.len()
                ==> outbound_request_ok(#[trigger] vat.outbox@[j], msg.dst_address),
            init_run == spec_run(
                code@,
                msg.dst_address,
                vat_state(*old(vat), start_addr as int, Seq::empty()),
                fuel as nat,
            ),
            (init_run == spec_run(code@, msg.dst_address, vat_state(*vat, x as int, sent), steps as nat)
                && vat.outbox@.len() == old(vat).outbox@.len() + sent.len()
                && (forall|k: int| 0 <= k < sent.len()
                    ==> req_matches(#[trigger] vat.outbox@[old(vat).outbox@.len() + k], sent[k]))
                && (forall|i: int| 0 <= i < vat.entities@.len()
                    ==> (#[trigger] vat.entities@[i]).address == old(vat).entities@[i].address
                        && vat.entities@[i].code_id == old(vat).entities@[i].code_id))
                || init_run is RHost,
        decreases steps,
    {
        if x >= code.len() {
            // Code overrun: treated as an implicit return.
            let ghost cur = vat_state(*vat, x as int, sent);
            let r = finish_run(vat);
            proof {
                if !(init_run is RHost) {
                    assert(init_run == finish_g(cur));
                    if cur.ops.len() <= 1 {
                        assert(vat.op_stack@ =~= Seq::<Hvalue>::empty());
                    }
                }
            }
            return r;
        }
        if steps == 0 {
            return Err(VmError::StepLimit);
        }
        let ghost pre_vat: Vat = *vat;
        let ghost pre_x = x;
        let ghost pre_steps = steps;
        let ghost pre_sent = sent;
        let ghost pre = vat_state(pre_vat, pre_x as int, pre_sent);
        steps = steps - 1;

        let (q, inst) = match decode_instruction(x, code) {
            Ok(p) => p,
            Err(e) => {
                proof {
                    if !(init_run is RHost) {
                        assert(spec_step(code@, msg.dst_address, pre)
                            == StepG::Abort(VmError::InvalidOpcode));
                    }
                }
                return Err(e);
            },
        };
        x = q;

        match inst {
            Op::Push(a0) => {
                vat.op_stack.push(a0);
                proof {
                    if !(init_run is RHost) {
                        assert(spec_step(code@, msg.dst_address, pre)
                            == StepG::Cont(vat_state(*vat, x as int, sent)));
                    }
                }
            },
            Op::Add | Op::Sub | Op::Mul | Op::Div => {
                let k = match inst {
                    Op::Add => BinOp::Add,
                    Op::Sub => BinOp::Sub,
                    Op::Mul => BinOp::Mul,
                    _ => BinOp::Div,
                };
                let rhs = match vat.op_stack.pop() {
                    Some(v) => v,
                    None => {
                        proof {
                            if !(init_run is RHost) {
                                assert(spec_step(code@, msg.dst_address, pre)
                                    == StepG::Abort(VmError::StackUnderflow));
                            }
                        }
                        return Err(VmError::StackUnderflow);
                    },
                };
                let lhs = match vat.op_stack.pop() {
                    Some(v) => v,
                    None => {
                        proof {
                            if !(init_run is RHost) {
                                assert(spec_step(code@, msg.dst_address, pre)
                                    == StepG::Abort(VmError::StackUnderflow));
                            }
                        }
                        return Err(VmError::StackUnderflow);
                    },
                };
                proof {
                    assert(rhs == pre.ops.last());
                    assert(lhs == pre.ops.drop_last().last());
                    assert(lhs == pre.ops[pre.ops.len() - 2]);
                }
                match (lhs, rhs) {
                    (Hvalue::Hu8(a), Hvalue::Hu8(b)) => {
                        if matches!(k, BinOp::Div) && b == 0 {
                            proof {
                                if !(init_run is RHost) {
                                    assert(spec_step(code@, msg.dst_address, pre)
                                        == StepG::Abort(VmError::DivisionByZero));
                                }
                            }
                            return Err(VmError::DivisionByZero);
                        }
                        vat.op_stack.push(Hvalue::Hu8(arith_u8(k, a, b)));
                        proof {
                            if !(init_run is RHost) {
                                assert(vat.op_stack@ == pre.ops.drop_last().drop_last().push(
                                    Hvalue::Hu8(eval_arith(k, a, b)),
                                ));
                                assert(spec_step(code@, msg.dst_address, pre)
                                    == StepG::Cont(vat_state(*vat, x as int, sent)));
                            }
                        }
                    },
                    _ => {
                        proof {
                            if !(init_run is RHost) {
                                assert(spec_step(code@, msg.dst_address, pre)
                                    == StepG::Abort(VmError::TypeMismatch));
                            }
                        }
                        return Err(VmError::TypeMismatch);
                    },
                }
            },
            Op::Lload(s0) => {
                match vat.load_local(&s0) {
                    Ok(v) => {
                        vat.op_stack.push(v);
                        proof {
                            if !(init_run is RHost) {
                                assert(pre.frames.last() == frame_view(
                                    pre_vat.call_stack@.last(),
                                ));
                                assert(spec_step(code@, msg.dst_address, pre)
                                    == StepG::Cont(vat_state(*vat, x as int, sent)));
                            }
                        }
                    },
                    Err(e) => {
                        proof {
                            if !(init_run is RHost) {
                                if pre_vat.call_stack@.len() > 0 {
                                    assert(pre.frames.last() == frame_view(
                                        pre_vat.call_stack@.last(),
                                    ));
                                }
                                assert(spec_step(code@, msg.dst_address, pre)
                                    == StepG::Abort(e));
                            }
                        }
                        return Err(e);
                    },
                }
            },
            Op::Lstore(s0) => {
                let store_val = match vat.op_stack.pop() {
                    Some(v) => v,
                    None => {
                        proof {
                            if !(init_run is RHost) {
                                assert(spec_step(code@, msg.dst_address, pre)
                                    == StepG::Abort(VmError::StackUnderflow));
                            }
                        }
                        return Err(VmError::StackUnderflow);
                    },
                };
                if let Hvalue::HPromise(promise_id) = store_val {
                    let pidx = promise_id as usize;
                    if pidx >= vat.promise_stack.len() {
                        proof {
                            if !(init_run is RHost) {
                                assert(spec_step(code@, msg.dst_address, pre)
                                    == StepG::Abort(VmError::PromiseMisuse));
                            }
                        }
                        return Err(VmError::PromiseMisuse);
                    }
                    let name = clone_bytes(&s0);
                    let pr = vec_index_mut(&mut vat.promise_stack, pidx);
                    pr.var_names.push(name);
                    proof {
                        lemma_names_view_push(
                            pre_vat.promise_stack@[pidx as int].var_names@,
                            name,
                        );
                        lemma_promises_view_update(
                            pre_vat.promise_stack@,
                            pidx as int,
                            vat.promise_stack@[pidx as int],
                        );
                    }
                }
                match vat.store_local(&s0, store_val) {
                    Ok(()) => {},
                    Err(e) => {
                        proof {
                            if !(init_run is RHost) {
                                assert(spec_step(code@, msg.dst_address, pre)
                                    == StepG::Abort(VmError::StackUnderflow));
                            }
                        }
                        return Err(e);
                    },
                }
                proof {
                    if !(init_run is RHost) {
                        let top = pre.frames.len() - 1;
                        assert(frames_view(vat.call_stack@) =~~= pre.frames.update(
                            top as int,
                            FrameG {
                                locals: pre.frames.last().locals.insert(s0@, store_val),
                                return_address: pre.frames.last().return_address,
                            },
                        )) by {
                            assert forall|i: int| 0 <= i < vat.call_stack@.len() implies
                                #[trigger] frames_view(vat.call_stack@)[i] =~~= pre.frames.update(
                                    top as int,
                                    FrameG {
                                        locals: pre.frames.last().locals.insert(s0@, store_val),
                                        return_address: pre.frames.last().return_address,
                                    },
                                )[i] by {
                                if i < top {
                                    assert(vat.call_stack@.subrange(0, top as int)[i]
                                        == vat.call_stack@[i]);
                                    assert(pre_vat.call_stack@.subrange(0, top as int)[i]
                                        == pre_vat.call_stack@[i]);
                                }
                            }
                        }
                        assert(spec_step(code@, msg.dst_address, pre)
                            == StepG::Cont(vat_state(*vat, x as int, sent)));
                    }
                }
            },
            Op::Eload(s0) => {
                let eid = msg.dst_address.entity_id as usize;
                if eid >= vat.entities.len() {
                    proof {
                        if !(init_run is RHost) {
                            assert(spec_step(code@, msg.dst_address, pre)
                                == StepG::Abort(VmError::MissingEntity));
                        }
                    }
                    return Err(VmError::MissingEntity);
                }
                match vat.entities[eid].data.get(&s0) {
                    Some(v) => {
                        vat.op_stack.push(v);
                        proof {
                            if !(init_run is RHost) {
                                assert(pre.data[eid as int]
                                    == pre_vat.entities@[eid as int].data@);
                                assert(spec_step(code@, msg.dst_address, pre)
                                    == StepG::Cont(vat_state(*vat, x as int, sent)));
                            }
                        }
                    },
                    None => {
                        proof {
                            if !(init_run is RHost) {
                                assert(pre.data[eid as int]
                                    == pre_vat.entities@[eid as int].data@);
                                assert(spec_step(code@, msg.dst_address, pre)
                                    == StepG::Abort(VmError::UnboundName));
                            }
                        }
                        return Err(VmError::UnboundName);
                    },
                }
            },
            Op::Estore(s0) => {
                let eid = msg.dst_address.entity_id as usize;
                if eid >= vat.entities.len() {
                    proof {
                        if !(init_run is RHost) {
                            assert(spec_step(code@, msg.dst_address, pre)
                                == StepG::Abort(VmError::MissingEntity));
                        }
                    }
                    return Err(VmError::MissingEntity);
                }
                let store_val = match vat.op_stack.pop() {
                    Some(v) => v,
                    None => {
                        proof {
                            if !(init_run is RHost) {
                                assert(spec_step(code@, msg.dst_address, pre)
                                    == StepG::Abort(VmError::StackUnderflow));
                            }
                        }
                        return Err(VmError::StackUnderflow);
                    },
                };
                let ent = vec_index_mut(&mut vat.entities, eid);
                ent.data.set(&s0, store_val);
                proof {
                    if !(init_run is RHost) {
                        lemma_entities_data_update(
                            pre_vat.entities@,
                            eid as int,
                            vat.entities@[eid as int],
                        );
                        assert(pre.data[eid as int] == pre_vat.entities@[eid as int].data@);
                        assert(spec_step(code@, msg.dst_address, pre)
                            == StepG::Cont(vat_state(*vat, x as int, sent)));
                    }
                }
            },
            Op::Message(a0) => {
                if vat.promise_stack.len() >= 256 {
                    proof {
                        if !(init_run is RHost) {
                            assert(spec_step(code@, msg.dst_address, pre)
                                == StepG::Abort(VmError::PromiseTableFull));
                        }
                    }
                    return Err(VmError::PromiseTableFull);
                }
                let next_prom_id = vat.promise_stack.len() as u8;
                let out = Msg {
                    src_address: msg.dst_address,
                    dst_address: EntityAddress::new(0, 0, 0),
                    contents: MsgContents::Request {
                        args: Vec::new(),
                        function_id: a0 as u32,
                        function_name: main_name(),
                        src_promise: Some(next_prom_id),
                    },
                };
                vat.outbox.push(out);
                let fresh = Promise::new();
                proof {
                    lemma_fresh_promise_view(fresh);
                    lemma_promises_view_push(pre_vat.promise_stack@, fresh);
                }
                vat.promise_stack.push(fresh);
                vat.op_stack.push(Hvalue::HPromise(next_prom_id));
                proof {
                    assert(vat.outbox@.subrange(0, old(vat).outbox@.len() as int)
                        =~= old(vat).outbox@);
                    sent = sent.push(
                        ReqG {
                            src: msg.dst_address,
                            function_id: a0 as u32,
                            src_promise: next_prom_id,
                        },
                    );
                    if !(init_run is RHost) {
                        assert(spec_step(code@, msg.dst_address, pre)
                            == StepG::Cont(vat_state(*vat, x as int, sent)));
                    }
                }
            },
            Op::Await => {
                let opv = match vat.op_stack.pop() {
                    Some(v) => v,
                    None => {
                        proof {
                            if !(init_run is RHost) {
                                assert(spec_step(code@, msg.dst_address, pre)
                                    == StepG::Abort(VmError::StackUnderflow));
                            }
                        }
                        return Err(VmError::StackUnderflow);
                    },
                };
                let target_promise = match opv {
                    Hvalue::HPromise(p) => p,
                    _ => {
                        proof {
                            if !(init_run is RHost) {
                                assert(spec_step(code@, msg.dst_address, pre)
                                    == StepG::Abort(VmError::PromiseMisuse));
                            }
                        }
                        return Err(VmError::PromiseMisuse);
                    },
                };
                let pidx = target_promise as usize;
                if pidx >= vat.promise_stack.len() {
                    proof {
                        if !(init_run is RHost) {
                            assert(spec_step(code@, msg.dst_address, pre)
                                == StepG::Abort(VmError::PromiseMisuse));
                        }
                    }
                    return Err(VmError::PromiseMisuse);
                }
                if !vat.promise_stack[pidx].resolved {
                    let ops_snap = clone_values(&vat.op_stack);
                    let frames_snap = clone_frames(&vat.call_stack);
                    let pr = vec_index_mut(&mut vat.promise_stack, pidx);
                    pr.save_point = (ops_snap, frames_snap);
                    pr.on_resolve.push(x);
                    proof {
                        if !(init_run is RHost) {
                            lemma_frames_eq_view(frames_snap@, pre_vat.call_stack@);
                            lemma_promises_view_update(
                                pre_vat.promise_stack@,
                                pidx as int,
                                vat.promise_stack@[pidx as int],
                            );
                            assert(promise_view(vat.promise_stack@[pidx as int]) =~~= (PromiseG {
                                on_resolve: pre.promises[pidx as int].on_resolve.push(
                                    q as usize,
                                ),
                                save_ops: pre.ops.drop_last(),
                                save_frames: pre.frames,
                                ..pre.promises[pidx as int]
                            }));
                            assert(spec_step(code@, msg.dst_address, pre)
                                == StepG::Suspend(vat_state(*vat, x as int, sent)));
                            assert(init_run == RunG::RYield(vat_state(*vat, x as int, sent)));
                        }
                    }
                    return Ok(None);
                }
                // An already-resolved promise lets execution continue.
                proof {
                    if !(init_run is RHost) {
                        assert(spec_step(code@, msg.dst_address, pre)
                            == StepG::Cont(vat_state(*vat, x as int, sent)));
                    }
                }
            },
            Op::Ret => {
                let sf = match vat.call_stack.pop() {
                    Some(f) => f,
                    None => {
                        proof {
                            if !(init_run is RHost) {
                                assert(spec_step(code@, msg.dst_address, pre)
                                    == StepG::Abort(VmError::StackUnderflow));
                            }
                        }
                        return Err(VmError::StackUnderflow);
                    },
                };
                proof {
                    if !(init_run is RHost) {
                        lemma_frames_view_drop(pre_vat.call_stack@);
                        assert(frame_view(sf) == pre.frames.last());
                    }
                }
                match sf.return_address {
                    Some(ret_addr) => {
                        x = ret_addr;
                        proof {
                            if !(init_run is RHost) {
                                assert(spec_step(code@, msg.dst_address, pre)
                                    == StepG::Cont(vat_state(*vat, x as int, sent)));
                            }
                        }
                    },
                    None => {
                        let ghost halted = vat_state(*vat, x as int, sent);
                        proof {
                            if !(init_run is RHost) {
                                assert(spec_step(code@, msg.dst_address, pre)
                                    == StepG::Halt(halted));
                                assert(init_run == finish_g(halted));
                            }
                        }
                        let r = finish_run(vat);
                        proof {
                            if !(init_run is RHost) {
                                if halted.ops.len() <= 1 {
                                    assert(vat.op_stack@ =~= Seq::<Hvalue>::empty());
                                }
                            }
                        }
                        return r;
                    },
                }
            },
            Op::ForeignCall(a0) => {
                let eid = msg.dst_address.entity_id as usize;
                if eid >= vat.entities.len() {
                    proof {
                        if !(init_run is RHost) {
                            assert(spec_step(code@, msg.dst_address, pre)
                                == StepG::Abort(VmError::MissingEntity));
                        }
                    }
                    return Err(VmError::MissingEntity);
                }
                proof {
                    if !(init_run is RHost) {
                        assert(spec_step(code@, msg.dst_address, pre) == StepG::Host);
                        assert(init_run == RunG::RHost(pre));
                    }
                }
                let ent = vec_index_mut(&mut vat.entities, eid);
                let res = host.call_foreign(a0, ent, Hvalue::HNone);
                vat.op_stack.push(res);
            },
            Op::Nop => {
                proof {
                    if !(init_run is RHost) {
                        assert(spec_step(code@, msg.dst_address, pre)
                            == StepG::Cont(vat_state(*vat, x as int, sent)));
                    }
                }
            },
        }
    }
}

/// Restores a suspended computation's stacks from a promise's save point and
/// binds the resolved value to the first recorded variable name, if one was
/// recorded: the binding lands exactly on that name in the restored topmost
/// frame.
fn resume_restore(
    vat: &mut Vat,
    save_ops: &Vec<Hvalue>,
    save_frames: &Vec<StackFrame>,
    first_var: &Option<Vec<u8>>,
    result: Hvalue,
) -> (r: Result<(), VmError>)
    ensures
        final(vat).entities == old(vat).entities,
        final(vat).vat_id == old(vat).vat_id,
        final(vat).last_entity_id == old(vat).last_entity_id,
        final(vat).inbox == old(vat).inbox,
        final(vat).outbox == old(vat).outbox,
        final(vat).promise_stack == old(vat).promise_stack,
        match r {
            Ok(()) => {
                &&& final(vat).op_stack@ == save_ops@
                &&& final(vat).call_stack@.len() == save_frames@.len()
                &&& match *first_var {
                    None => frames_eq(final(vat).call_stack@, save_frames@),
                    Some(name) => save_frames@.len() > 0
                        && frames_eq(
                            final(vat).call_stack@.subrange(0, save_frames@.len() - 1),
                            save_frames@.subrange(0, save_frames@.len() - 1),
                        )
                        && final(vat).call_stack@.last().locals@
                            == save_frames@.last().locals@.insert(name@, result)
                        && final(vat).call_stack@.last().return_address
                            == save_frames@.last().return_address,
                }
            },
            Err(e) => first_var is Some && save_frames@.len() == 0
                && e == VmError::StackUnderflow,
        },
{
    vat.op_stack = clone_values(save_ops);
    vat.call_stack = clone_frames(save_frames);
    match first_var {
        None => {
            proof {
                assert(frames_eq(final(vat).call_stack@, save_frames@));
            }
            Ok(())
        },
        Some(name) => {
            let res = vat.store_local(name, result);
            match res {
                Ok(()) => {
                    proof {
                        let n = save_frames@.len() as int;
                        assert forall|i: int| 0 <= i < n - 1 implies frame_eq(
                            #[trigger] vat.call_stack@.subrange(0, n - 1)[i],
                            save_frames@.subrange(0, n - 1)[i],
                        ) by {
                            assert(vat.call_stack@.subrange(0, n - 1)[i] == vat.call_stack@[i]);
                        }
                    }
                    Ok(())
                },
                Err(e) => Err(e),
            }
        },
    }
}

/// The state a request or startup message runs from: the vat's stacks with
/// a fresh outermost frame pushed, starting at the addressed function's
/// table start.
pub open spec fn req_start_state(vat: Vat, start: int) -> StG {
    StG {
        ip: start,
        ops: vat.op_stack@,
        frames: frames_view(vat.call_stack@).push(
            FrameG { locals: Map::empty(), return_address: None },
        ),
        promises: promises_view(vat.promise_stack@),
        data: entities_data(vat.entities@),
        sent: Seq::empty(),
    }
}

/// The state a single recorded resumption of promise `p` runs from: the
/// stacks restored from the promise's save point, the resolved value bound
/// to the first recorded variable name in the restored topmost frame, and
/// the promise marked resolved with its resumption list drained.
pub open spec fn resume_state(vat: Vat, p: int, result: Hvalue) -> StG {
    let pg = promises_view(vat.promise_stack@)[p];
    let f0 = pg.save_frames;
    StG {
        ip: pg.on_resolve[0] as int,
        ops: pg.save_ops,
        frames: if pg.var_names.len() >= 1 && f0.len() >= 1 {
            f0.update(
                f0.len() - 1,
                FrameG {
                    locals: f0.last().locals.insert(pg.var_names[0], result),
                    return_address: f0.last().return_address,
                },
            )
        } else {
            f0
        },
        promises: promises_view(vat.promise_stack@).update(
            p,
            PromiseG { resolved: true, on_resolve: Seq::empty(), ..pg },
        ),
        data: entities_data(vat.entities@),
        sent: Seq::empty(),
    }
}

/// What running a request or the startup message owes, given the outcome
/// the machine prescribes from the fresh outermost frame: a completed
/// request owes `out` as the reply, a completed startup message owes no
/// reply, a yield owes no reply, and a failed run owes its error.
pub open spec fn dispatch_outcome(
    run: RunG,
    r: Result<Option<Msg>, VmError>,
    out: Option<Msg>,
) -> bool {
    match run {
        RunG::RDone(v, st) => r == Ok::<Option<Msg>, VmError>(out),
        RunG::RYield(st) => r == Ok::<Option<Msg>, VmError>(None),
        RunG::RFail(e) => r == Err::<Option<Msg>, VmError>(e),
        RunG::RHost(st) => true,
    }
}

/// Runs one message against a vat: a request or the startup message runs
/// the addressed function from its table start on a fresh outermost frame;
/// a response resolves its promise and resumes every suspension recorded on
/// it, restoring the save point and binding the resolved value to the first
/// recorded variable name.
///
/// A request that runs to completion returns the response message to send
/// back, carrying the run's result value; a yield, a response and the
/// startup message return `Ok(None)`. Every error is fatal to this message
/// only. As in `run_expr`, a run that reaches a `ForeignCall` is pinned
/// down only up to the frame conditions.
#[verifier::loop_isolation(false)]
#[verifier::rlimit(100)]
#[verifier::spinoff_prover]
pub fn run_msg<H: ForeignHost>(
    code: &Vec<u8>,
    vat: &mut Vat,
    msg: &Msg,
    host: &mut H,
    fuel: usize,
) -> (r: Result<Option<Msg>, VmError>)
    ensures
        final(vat).entities@.len() == old(vat).entities@.len(),
        final(vat).vat_id == old(vat).vat_id,
        final(vat).last_entity_id == old(vat).last_entity_id,
        final(vat).inbox == old(vat).inbox,
        match r {
            Ok(Some(out)) => {
                &&& msg.contents matches MsgContents::Request { src_promise, .. }
                    && out.contents matches MsgContents::Response { dst_promise, .. }
                    && dst_promise == src_promise
                &&& out.src_address == msg.dst_address
                &&& out.dst_address == msg.src_address
            },
            _ => true,
        },
        // A request or the startup message: the header tables must parse
        // and the addressed function must exist; then the run from a fresh
        // outermost frame decides everything, and a completed request's
        // response carries the run's result value.
        match msg.contents {
            MsgContents::Request { function_id, src_promise, .. } => match spec_parse_data_table(
                code@,
                0,
            ) {
                None => r == Err::<Option<Msg>, VmError>(VmError::InvalidOpcode),
                Some((d0, q)) => match spec_parse_func_table(code@, q) {
                    None => r == Err::<Option<Msg>, VmError>(VmError::InvalidOpcode),
                    Some((rows, e0)) => match spec_lookup(
                        rows,
                        msg.dst_address.entity_id,
                        function_id,
                        rows.len() - 1,
                    ) {
                        None => r == Err::<Option<Msg>, VmError>(VmError::MissingFunction),
                        Some(row) => match spec_run(
                            code@,
                            msg.dst_address,
                            req_start_state(*old(vat), row.start as int),
                            fuel as nat,
                        ) {
                            RunG::RDone(v, st) => r matches Ok(Some(out))
                                && out.src_address == msg.dst_address
                                && out.dst_address == msg.src_address
                                && out.contents == (MsgContents::Response {
                                    result: v,
                                    dst_promise: src_promise,
                                }),
                            RunG::RYield(st) => r == Ok::<Option<Msg>, VmError>(None),
                            RunG::RFail(e) => r == Err::<Option<Msg>, VmError>(e),
                            RunG::RHost(st) => true,
                        },
                    },
                },
            },
            MsgContents::BigBang { function_id, .. } => match spec_parse_data_table(code@, 0) {
                None => r == Err::<Option<Msg>, VmError>(VmError::InvalidOpcode),
                Some((d0, q)) => match spec_parse_func_table(code@, q) {
                    None => r == Err::<Option<Msg>, VmError>(VmError::InvalidOpcode),
                    Some((rows, e0)) => match spec_lookup(
                        rows,
                        msg.dst_address.entity_id,
                        function_id,
                        rows.len() - 1,
                    ) {
                        None => r == Err::<Option<Msg>, VmError>(VmError::MissingFunction),
                        Some(row) => dispatch_outcome(
                            spec_run(
                                code@,
                                msg.dst_address,
                                req_start_state(*old(vat), row.start as int),
                                fuel as nat,
                            ),
                            r,
                            None,
                        ),
                    },
                },
            },
            _ => true,
        },
        // A response resolves a known, unresolved promise exactly once and
        // drains it; one to an already-resolved promise is a no-op; one
        // naming no promise, or an unknown one, is promise misuse.
        match msg.contents {
            MsgContents::Response { dst_promise: Some(p), .. } => {
                if (p as int) >= old(vat).promise_stack@.len() {
                    r == Err::<Option<Msg>, VmError>(VmError::PromiseMisuse)
                        && *final(vat) == *old(vat)
                } else if old(vat).promise_stack@[p as int].resolved {
                    r == Ok::<Option<Msg>, VmError>(None) && *final(vat) == *old(vat)
                } else {
                    &&& final(vat).promise_stack@.len() >= old(vat).promise_stack@.len()
                    &&& final(vat).promise_stack@[p as int].resolved
                    &&& final(vat).promise_stack@[p as int].on_resolve@.len() == 0
                }
            },
            MsgContents::Response { dst_promise: None, .. } => r == Err::<
                Option<Msg>,
                VmError,
            >(VmError::PromiseMisuse) && *final(vat) == *old(vat),
            _ => true,
        },
        // A response's single recorded resumption runs from the restored
        // save point with the resolved value bound to the first recorded
        // name; with nothing recorded there is nothing to resume.
        match msg.contents {
            MsgContents::Response { result, dst_promise: Some(p) } => {
                ((p as int) < old(vat).promise_stack@.len()
                    && !old(vat).promise_stack@[p as int].resolved) ==> {
                    let pg = promises_view(old(vat).promise_stack@)[p as int];
                    &&& pg.on_resolve.len() == 0 ==> r == Ok::<Option<Msg>, VmError>(None)
                    &&& (pg.on_resolve.len() == 1 && pg.var_names.len() >= 1
                        && pg.save_frames.len() == 0)
                        ==> r == Err::<Option<Msg>, VmError>(VmError::StackUnderflow)
                    &&& (pg.on_resolve.len() == 1
                        && (pg.var_names.len() == 0 || pg.save_frames.len() >= 1))
                        ==> match spec_run(
                            code@,
                            msg.dst_address,
                            resume_state(*old(vat), p as int, result),
                            fuel as nat,
                        ) {
                            RunG::RDone(v, st) => r == Ok::<Option<Msg>, VmError>(None),
                            RunG::RYield(st) => r == Ok::<Option<Msg>, VmError>(None),
                            RunG::RFail(e) => r == Err::<Option<Msg>, VmError>(e),
                            RunG::RHost(st) => true,
                        }
                }
            },
            _ => true,
        },
{
    match &msg.contents {
        MsgContents::Request { function_id, src_promise, .. } => {
            let mut z: usize = 0;
            match load_entity_data_table(&mut z, code) {
                Ok(_) => {},
                Err(e) => {
                    return Err(e);
                },
            }
            let table = match load_entity_function_table(&mut z, code) {
                Ok(t) => t,
                Err(e) => {
                    return Err(e);
                },
            };
            vat.call_stack.push(
                StackFrame { locals: VarTable::new(), return_address: None },
            );
            let row = match table.lookup(msg.dst_address.entity_id, *function_id) {
                Some(r) => r,
                None => {
                    return Err(VmError::MissingFunction);
                },
            };
            proof {
                lemma_frames_view_push(
                    old(vat).call_stack@,
                    vat.call_stack@.last(),
                );
                assert(vat_state(*vat, row.start as int, Seq::empty())
                    =~~= req_start_state(*old(vat), row.start as int));
            }
            let res = match run_expr(row.start, vat, msg, host, code, fuel) {
                Ok(o) => o,
                Err(e) => {
                    return Err(e);
                },
            };
            match res {
                Some(result) => Ok(Some(Msg {
                    src_address: msg.dst_address,
                    dst_address: msg.src_address,
                    contents: MsgContents::Response { result, dst_promise: *src_promise },
                })),
                None => Ok(None),
            }
        },
        MsgContents::Response { result, dst_promise } => {
            let p = match dst_promise {
                Some(p) => *p,
                None => {
                    return Err(VmError::PromiseMisuse);
                },
            };
            let pidx = p as usize;
            if pidx >= vat.promise_stack.len() {
                return Err(VmError::PromiseMisuse);
            }
            if vat.promise_stack[pidx].resolved {
                return Ok(None);
            }
            let ghost pg = promises_view(old(vat).promise_stack@)[pidx as int];
            let pr = vec_index_mut(&mut vat.promise_stack, pidx);
            pr.resolved = true;
            let resolutions = clone_usizes(&pr.on_resolve);
            pr.on_resolve = Vec::new();
            let save_ops = clone_values(&pr.save_point.0);
            let save_frames = clone_frames(&pr.save_point.1);
            let first_var = if pr.var_names.len() > 0 {
                Some(clone_bytes(&pr.var_names[0]))
            } else {
                None
            };
            proof {
                lemma_promises_view_update(
                    old(vat).promise_stack@,
                    pidx as int,
                    vat.promise_stack@[pidx as int],
                );
                assert(promise_view(vat.promise_stack@[pidx as int]) =~~= (PromiseG {
                    resolved: true,
                    on_resolve: Seq::empty(),
                    ..pg
                }));
                lemma_frames_eq_view(save_frames@, old(vat).promise_stack@[pidx as int].save_point.1@);
                assert(resolutions@ == pg.on_resolve);
                assert(save_ops@ == pg.save_ops);
                assert(frames_view(save_frames@) == pg.save_frames);
                assert(promises_view(vat.promise_stack@)
                    =~~= promises_view(old(vat).promise_stack@).update(
                    pidx as int,
                    PromiseG { resolved: true, on_resolve: Seq::empty(), ..pg },
                ));
            }
            let mut i: usize = 0;
            while i < resolutions.len()
                invariant
                    i <= resolutions@.len(),
                    pidx < vat.promise_stack@.len(),
                    vat.promise_stack@.len() >= old(vat).promise_stack@.len(),
                    vat.promise_stack@[pidx as int].resolved,
                    vat.promise_stack@[pidx as int].on_resolve@.len() == 0,
                    vat.entities@.len() == old(vat).entities@.len(),
                    vat.vat_id == old(vat).vat_id,
                    vat.last_entity_id == old(vat).last_entity_id,
                    vat.inbox == old(vat).inbox,
                    i == 0 ==> vat.entities == old(vat).entities,
                    i == 0 ==> promises_view(vat.promise_stack@)
                        == promises_view(old(vat).promise_stack@).update(
                        pidx as int,
                        PromiseG { resolved: true, on_resolve: Seq::empty(), ..pg },
                    ),
                    i >= 1 ==> (pg.var_names.len() == 0 || pg.save_frames.len() >= 1),
                    (i >= 1 && resolutions@.len() == 1
                        && (pg.var_names.len() == 0 || pg.save_frames.len() >= 1))
                        ==> !(spec_run(
                            code@,
                            msg.dst_address,
                            resume_state(*old(vat), pidx as int, *result),
                            fuel as nat,
                        ) is RFail),
                decreases resolutions@.len() - i,
            {
                match resume_restore(vat, &save_ops, &save_frames, &first_var, *result) {
                    Ok(()) => {},
                    Err(e) => {
                        return Err(e);
                    },
                }
                proof {
                    if i == 0 && resolutions@.len() == 1
                        && (pg.var_names.len() == 0 || pg.save_frames.len() >= 1) {
                        if first_var is Some {
                            let top = pg.save_frames.len() - 1;
                            assert(frames_view(vat.call_stack@) =~~= pg.save_frames.update(
                                top as int,
                                FrameG {
                                    locals: pg.save_frames.last().locals.insert(
                                        pg.var_names[0],
                                        *result,
                                    ),
                                    return_address: pg.save_frames.last().return_address,
                                },
                            )) by {
                                assert forall|j: int| 0 <= j < vat.call_stack@.len() implies
                                    #[trigger] frames_view(vat.call_stack@)[j]
                                        =~~= pg.save_frames.update(
                                        top as int,
                                        FrameG {
                                            locals: pg.save_frames.last().locals.insert(
                                                pg.var_names[0],
                                                *result,
                                            ),
                                            return_address: pg.save_frames.last()
                                                .return_address,
                                        },
                                    )[j] by {
                                    if j < top {
                                        assert(frame_eq(
                                            vat.call_stack@.subrange(0, top as int)[j],
                                            save_frames@.subrange(0, top as int)[j],
                                        ));
                                    }
                                }
                            }
                        } else {
                            lemma_frames_eq_view(vat.call_stack@, save_frames@);
                        }
                        assert(vat.op_stack@ == pg.save_ops);
                        assert(entities_data(vat.entities@)
                            == entities_data(old(vat).entities@));
                        assert(promises_view(vat.promise_stack@)
                            =~~= promises_view(old(vat).promise_stack@).update(
                            pidx as int,
                            PromiseG { resolved: true, on_resolve: Seq::empty(), ..pg },
                        ));
                        assert(resolutions@[0] == pg.on_resolve[0]);
                        assert(vat_state(*vat, resolutions@[0] as int, Seq::empty())
                            =~~= resume_state(*old(vat), pidx as int, *result));
                    }
                }
                match run_expr(resolutions[i], vat, msg, host, code, fuel) {
                    Ok(_) => {},
                    Err(e) => {
                        return Err(e);
                    },
                }
                i = i + 1;
            }
            Ok(None)
        },
        MsgContents::BigBang { function_id, .. } => {
            let mut z: usize = 0;
            match load_entity_data_table(&mut z, code) {
                Ok(_) => {},
                Err(e) => {
                    return Err(e);
                },
            }
            let table = match load_entity_function_table(&mut z, code) {
                Ok(t) => t,
                Err(e) => {
                    return Err(e);
                },
            };
            vat.call_stack.push(
                StackFrame { locals: VarTable::new(), return_address: None },
            );
            let row = match table.lookup(msg.dst_address.entity_id, *function_id) {
                Some(r) => r,
                None => {
                    return Err(VmError::MissingFunction);
                },
            };
            proof {
                lemma_frames_view_push(
                    old(vat).call_stack@,
                    vat.call_stack@.last(),
                );
                assert(vat_state(*vat, row.start as int, Seq::empty())
                    =~~= req_start_state(*old(vat), row.start as int));
            }
            match run_expr(row.start, vat, msg, host, code, fuel) {
                Ok(_) => Ok(None),
                Err(e) => Err(e),
            }
        },
    }
}

/// The data maps of all entities after applying the first `i` table rows in
/// order: each row inserts its value under its name into its entity's map;
/// a row naming an entity the vat does not host changes nothing.
pub open spec fn spec_apply_rows(
    data: Seq<Map<Seq<u8>, Hvalue>>,
    rows: Seq<(u32, Vec<u8>, Hvalue)>,
    i: int,
) -> Seq<Map<Seq<u8>, Hvalue>>
    decreases i,
{
    if i <= 0 {
        data
    } else {
        let prev = spec_apply_rows(data, rows, i - 1);
        let e = rows[i - 1].0 as int;
        if 0 <= e < prev.len() {
            prev.update(e, prev[e].insert(rows[i - 1].1@, rows[i - 1].2))
        } else {
            prev
        }
    }
}

/// The data maps of a list of entities.
pub open spec fn entities_data(es: Seq<Entity>) -> Seq<Map<Seq<u8>, Hvalue>> {
    es.map_values(|e: Entity| e.data@)
}

/// Applies a loaded entity-data table to a vat: each row stores its value
/// into the named data field of its entity, in row order. A row naming an
/// entity the vat does not host is skipped.
#[verifier::loop_isolation(false)]
pub fn apply_entity_data_table(vat: &mut Vat, rows: &Vec<(u32, Vec<u8>, Hvalue)>)
    ensures
        final(vat).entities@.len() == old(vat).entities@.len(),
        final(vat).vat_id == old(vat).vat_id,
        final(vat).last_entity_id == old(vat).last_entity_id,
        final(vat).inbox == old(vat).inbox,
        final(vat).outbox == old(vat).outbox,
        final(vat).op_stack == old(vat).op_stack,
        final(vat).call_stack == old(vat).call_stack,
        final(vat).promise_stack == old(vat).promise_stack,
        forall|i: int| 0 <= i < final(vat).entities@.len()
            ==> (#[trigger] final(vat).entities@[i]).address == old(vat).entities@[i].address
                && final(vat).entities@[i].code_id == old(vat).entities@[i].code_id,
        entities_data(final(vat).entities@) == spec_apply_rows(
            entities_data(old(vat).entities@),
            rows@,
            rows@.len() as int,
        ),
{
    let mut i: usize = 0;
    while i < rows.len()
        invariant
            i <= rows@.len(),
            vat.entities@.len() == old(vat).entities@.len(),
            vat.vat_id == old(vat).vat_id,
            vat.last_entity_id == old(vat).last_entity_id,
            vat.inbox == old(vat).inbox,
            vat.outbox == old(vat).outbox,
            vat.op_stack == old(vat).op_stack,
            vat.call_stack == old(vat).call_stack,
            vat.promise_stack == old(vat).promise_stack,
            forall|k: int| 0 <= k < vat.entities@.len()
                ==> (#[trigger] vat.entities@[k]).address == old(vat).entities@[k].address
                    && vat.entities@[k].code_id == old(vat).entities@[k].code_id,
            entities_data(vat.entities@) == spec_apply_rows(
                entities_data(old(vat).entities@),
                rows@,
                i as int,
            ),
        decreases rows@.len() - i,
    {
        let eid = rows[i].0 as usize;
        if eid < vat.entities.len() {
            let name = clone_bytes(&rows[i].1);
            let val = rows[i].2;
            let ent = vec_index_mut(&mut vat.entities, eid);
            ent.data.set(&name, val);
        }
        i = i + 1;
        proof {
            assert(entities_data(vat.entities@) =~= spec_apply_rows(
                entities_data(old(vat).entities@),
                rows@,
                i as int,
            ));
        }
    }
}

} // verus!
