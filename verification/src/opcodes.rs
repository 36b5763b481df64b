//! Runtime values, the instruction set, and the instruction codec.
//!
//! Every instruction is encoded as a one-byte opcode tag followed by its
//! operands. Inline values are self-describing (a one-byte tag, then the
//! payload); name operands are a one-byte length, the name bytes, and a
//! terminating zero byte.

use vstd::prelude::*;

verus! {

/// A runtime value: nothing, a small unsigned integer, or a handle into the
/// current vat's promise table.
#[derive(Clone, Copy, PartialEq, Eq, Structural, Debug)]
pub enum Hvalue {
    HNone,
    Hu8(u8),
    HPromise(u8),
}

/// A stack-machine instruction. Name operands identify locals or
/// entity-scoped data slots.
#[derive(Clone, PartialEq, Eq, Debug)]
pub enum Op {
    Push(Hvalue),
    Add,
    Sub,
    Mul,
    Div,
    Lload(Vec<u8>),
    Lstore(Vec<u8>),
    Eload(Vec<u8>),
    Estore(Vec<u8>),
    Message(u8),
    Await,
    Ret,
    ForeignCall(u8),
    Nop,
}

/// The mathematical shape of an instruction: names as byte sequences.
pub enum OpG {
    Push(Hvalue),
    Add,
    Sub,
    Mul,
    Div,
    Lload(Seq<u8>),
    Lstore(Seq<u8>),
    Eload(Seq<u8>),
    Estore(Seq<u8>),
    Message(u8),
    Await,
    Ret,
    ForeignCall(u8),
    Nop,
}

impl View for Op {
    type V = OpG;

    open spec fn view(&self) -> OpG {
        match self {
            Op::Push(v) => OpG::Push(*v),
            Op::Add => OpG::Add,
            Op::Sub => OpG::Sub,
            Op::Mul => OpG::Mul,
            Op::Div => OpG::Div,
            Op::Lload(n) => OpG::Lload(n@),
            Op::Lstore(n) => OpG::Lstore(n@),
            Op::Eload(n) => OpG::Eload(n@),
            Op::Estore(n) => OpG::Estore(n@),
            Op::Message(f) => OpG::Message(*f),
            Op::Await => OpG::Await,
            Op::Ret => OpG::Ret,
            Op::ForeignCall(f) => OpG::ForeignCall(*f),
            Op::Nop => OpG::Nop,
        }
    }
}

/// An error raised while decoding or executing bytecode. Every error is fatal
/// to the current message only; the vat survives.
#[derive(Clone, Copy, PartialEq, Eq, Structural, Debug)]
pub enum VmError {
    TypeMismatch,
    StackUnderflow,
    UnboundName,
    DivisionByZero,
    InvalidOpcode,
    PromiseMisuse,
    MissingEntity,
    MissingFunction,
    PromiseTableFull,
    StepLimit,
    InvalidProgram,
}

/// The one-byte tag that opens the encoding of each instruction.
pub open spec fn spec_op_tag(op: OpG) -> u8 {
    match op {
        OpG::Nop => 0,
        OpG::Push(_) => 1,
        OpG::Add => 2,
        OpG::Sub => 3,
        OpG::Mul => 4,
        OpG::Div => 5,
        OpG::Lload(_) => 6,
        OpG::Lstore(_) => 7,
        OpG::Eload(_) => 8,
        OpG::Estore(_) => 9,
        OpG::Message(_) => 10,
        OpG::Await => 11,
        OpG::Ret => 12,
        OpG::ForeignCall(_) => 13,
    }
}

/// The encoding of an inline value: a self-describing tag, then the payload.
pub open spec fn spec_encode_value(v: Hvalue) -> Seq<u8> {
    match v {
        Hvalue::HNone => seq![1u8],
        Hvalue::Hu8(n) => seq![2u8, n],
        Hvalue::HPromise(p) => seq![3u8, p],
    }
}

/// The encoding of a name operand: a length byte, the bytes, a zero byte.
pub open spec fn spec_encode_name(name: Seq<u8>) -> Seq<u8> {
    seq![name.len() as u8] + name + seq![0u8]
}

/// The byte encoding of one instruction.
pub open spec fn spec_encode_op(op: OpG) -> Seq<u8> {
    match op {
        OpG::Push(v) => seq![spec_op_tag(op)] + spec_encode_value(v),
        OpG::Lload(n) => seq![spec_op_tag(op)] + spec_encode_name(n),
        OpG::Lstore(n) => seq![spec_op_tag(op)] + spec_encode_name(n),
        OpG::Eload(n) => seq![spec_op_tag(op)] + spec_encode_name(n),
        OpG::Estore(n) => seq![spec_op_tag(op)] + spec_encode_name(n),
        OpG::Message(f) => seq![spec_op_tag(op), f],
        OpG::ForeignCall(f) => seq![spec_op_tag(op), f],
        _ => seq![spec_op_tag(op)],
    }
}

/// An instruction is encodable when each name operand fits its length byte.
pub open spec fn op_encodable(op: OpG) -> bool {
    match op {
        OpG::Lload(n) => n.len() <= 255,
        OpG::Lstore(n) => n.len() <= 255,
        OpG::Eload(n) => n.len() <= 255,
        OpG::Estore(n) => n.len() <= 255,
        _ => true,
    }
}

/// Decoding of an inline value starting at `i`; yields the value and the
/// index just past it.
pub open spec fn spec_decode_value(code: Seq<u8>, i: int) -> Option<(Hvalue, int)> {
    if 0 <= i < code.len() {
        if code[i] == 1 {
            Some((Hvalue::HNone, i + 1))
        } else if code[i] == 2 && i + 1 < code.len() {
            Some((Hvalue::Hu8(code[i + 1]), i + 2))
        } else if code[i] == 3 && i + 1 < code.len() {
            Some((Hvalue::HPromise(code[i + 1]), i + 2))
        } else {
            None
        }
    } else {
        None
    }
}

/// Decoding of a name operand starting at `i`.
pub open spec fn spec_decode_name(code: Seq<u8>, i: int) -> Option<(Seq<u8>, int)> {
    if 0 <= i < code.len() {
        let n = code[i] as int;
        if i + 1 + n < code.len() && code[i + 1 + n] == 0 {
            Some((code.subrange(i + 1, i + 1 + n), i + n + 2))
        } else {
            None
        }
    } else {
        None
    }
}

/// Decoding of one instruction starting at `i`; yields the instruction and
/// the index just past it.
pub open spec fn spec_decode_op(code: Seq<u8>, i: int) -> Option<(OpG, int)> {
    if 0 <= i < code.len() {
        let tag = code[i];
        if tag == 0 {
            Some((OpG::Nop, i + 1))
        } else if tag == 1 {
            match spec_decode_value(code, i + 1) {
                Some((v, j)) => Some((OpG::Push(v), j)),
                None => None,
            }
        } else if tag == 2 {
            Some((OpG::Add, i + 1))
        } else if tag == 3 {
            Some((OpG::Sub, i + 1))
        } else if tag == 4 {
            Some((OpG::Mul, i + 1))
        } else if tag == 5 {
            Some((OpG::Div, i + 1))
        } else if tag == 6 {
            match spec_decode_name(code, i + 1) {
                Some((n, j)) => Some((OpG::Lload(n), j)),
                None => None,
            }
        } else if tag == 7 {
            match spec_decode_name(code, i + 1) {
                Some((n, j)) => Some((OpG::Lstore(n), j)),
                None => None,
            }
        } else if tag == 8 {
            match spec_decode_name(code, i + 1) {
                Some((n, j)) => Some((OpG::Eload(n), j)),
                None => None,
            }
        } else if tag == 9 {
            match spec_decode_name(code, i + 1) {
                Some((n, j)) => Some((OpG::Estore(n), j)),
                None => None,
            }
        } else if tag == 10 {
            if i + 1 < code.len() {
                Some((OpG::Message(code[i + 1]), i + 2))
            } else {
                None
            }
        } else if tag == 11 {
            Some((OpG::Await, i + 1))
        } else if tag == 12 {
            Some((OpG::Ret, i + 1))
        } else if tag == 13 {
            if i + 1 < code.len() {
                Some((OpG::ForeignCall(code[i + 1]), i + 2))
            } else {
                None
            }
        } else {
            None
        }
    } else {
        None
    }
}

/// Encodes an inline value.
pub fn encode_value(v: &Hvalue) -> (r: Vec<u8>)
    ensures
        r@ == spec_encode_value(*v),
{
    let mut out: Vec<u8> = Vec::new();
    match v {
        Hvalue::HNone => {
            out.push(1);
        },
        Hvalue::Hu8(n) => {
            out.push(2);
            out.push(*n);
        },
        Hvalue::HPromise(p) => {
            out.push(3);
            out.push(*p);
        },
    }
    proof {
        assert(out@ =~= spec_encode_value(*v));
    }
    out
}

/// Encodes one instruction.
pub fn encode_instruction(op: &Op) -> (r: Vec<u8>)
    requires
        op_encodable(op@),
    ensures
        r@ == spec_encode_op(op@),
{
    let mut out: Vec<u8> = Vec::new();
    match op {
        Op::Push(v) => {
            out.push(1);
            let mut vb = encode_value(v);
            out.append(&mut vb);
        },
        Op::Add => out.push(2),
        Op::Sub => out.push(3),
        Op::Mul => out.push(4),
        Op::Div => out.push(5),
        Op::Lload(n) => {
            out.push(6);
            emit_name(&mut out, n);
        },
        Op::Lstore(n) => {
            out.push(7);
            emit_name(&mut out, n);
        },
        Op::Eload(n) => {
            out.push(8);
            emit_name(&mut out, n);
        },
        Op::Estore(n) => {
            out.push(9);
            emit_name(&mut out, n);
        },
        Op::Message(f) => {
            out.push(10);
            out.push(*f);
        },
        Op::Await => out.push(11),
        Op::Ret => out.push(12),
        Op::ForeignCall(f) => {
            out.push(13);
            out.push(*f);
        },
        Op::Nop => out.push(0),
    }
    proof {
        assert(out@ =~= spec_encode_op(op@));
    }
    out
}

/// Appends the encoding of a name operand.
fn emit_name(out: &mut Vec<u8>, name: &Vec<u8>)
    requires
        name@.len() <= 255,
    ensures
        final(out)@ == old(out)@ + spec_encode_name(name@),
{
    out.push(name.len() as u8);
    let mut i: usize = 0;
    while i < name.len()
        invariant
            i <= name@.len(),
            name@.len() <= 255,
            out@ == old(out)@ + seq![name@.len() as u8] + name@.subrange(0, i as int),
        decreases name@.len() - i,
    {
        out.push(name[i]);
        i = i + 1;
        proof {
            assert(name@.subrange(0, i as int)
                =~= name@.subrange(0, i - 1) + seq![name@[i - 1]]);
        }
    }
    out.push(0);
    proof {
        assert(name@.subrange(0, name@.len() as int) =~= name@);
        assert(out@ =~= old(out)@ + spec_encode_name(name@));
    }
}

/// Decodes the instruction starting at `loc`, returning it together with the
/// offset just past it. Fails exactly when the spec-level decoding does:
/// on an unknown tag or a truncated or unterminated operand.
pub fn decode_instruction(loc: usize, code: &Vec<u8>) -> (r: Result<(usize, Op), VmError>)
    ensures
        match r {
            Ok((next, op)) => spec_decode_op(code@, loc as int) == Some((op@, next as int))
                && loc < next <= code@.len(),
            Err(e) => spec_decode_op(code@, loc as int) is None && e == VmError::InvalidOpcode,
        },
{
    if loc >= code.len() {
        return Err(VmError::InvalidOpcode);
    }
    let tag = code[loc];
    if tag == 0 {
        Ok((loc + 1, Op::Nop))
    } else if tag == 1 {
        match decode_value_at(loc + 1, code) {
            Ok((next, v)) => Ok((next, Op::Push(v))),
            Err(e) => Err(e),
        }
    } else if tag == 2 {
        Ok((loc + 1, Op::Add))
    } else if tag == 3 {
        Ok((loc + 1, Op::Sub))
    } else if tag == 4 {
        Ok((loc + 1, Op::Mul))
    } else if tag == 5 {
        Ok((loc + 1, Op::Div))
    } else if tag == 6 {
        match decode_name(loc + 1, code) {
            Ok((next, n)) => Ok((next, Op::Lload(n))),
            Err(e) => Err(e),
        }
    } else if tag == 7 {
        match decode_name(loc + 1, code) {
            Ok((next, n)) => Ok((next, Op::Lstore(n))),
            Err(e) => Err(e),
        }
    } else if tag == 8 {
        match decode_name(loc + 1, code) {
            Ok((next, n)) => Ok((next, Op::Eload(n))),
            Err(e) => Err(e),
        }
    } else if tag == 9 {
        match decode_name(loc + 1, code) {
            Ok((next, n)) => Ok((next, Op::Estore(n))),
            Err(e) => Err(e),
        }
    } else if tag == 10 {
        if loc + 1 < code.len() {
            Ok((loc + 2, Op::Message(code[loc + 1])))
        } else {
            Err(VmError::InvalidOpcode)
        }
    } else if tag == 11 {
        Ok((loc + 1, Op::Await))
    } else if tag == 12 {
        Ok((loc + 1, Op::Ret))
    } else if tag == 13 {
        if loc + 1 < code.len() {
            Ok((loc + 2, Op::ForeignCall(code[loc + 1])))
        } else {
            Err(VmError::InvalidOpcode)
        }
    } else {
        Err(VmError::InvalidOpcode)
    }
}

/// Decodes an inline value starting at `loc`, returning the offset just past
/// it together with the value.
pub fn decode_value_at(loc: usize, code: &Vec<u8>) -> (r: Result<(usize, Hvalue), VmError>)
    ensures
        match r {
            Ok((next, v)) => spec_decode_value(code@, loc as int) == Some((v, next as int))
                && loc < next <= code@.len(),
            Err(e) => spec_decode_value(code@, loc as int) is None
                && e == VmError::InvalidOpcode,
        },
{
    if loc >= code.len() {
        return Err(VmError::InvalidOpcode);
    }
    let tag = code[loc];
    if tag == 1 {
        Ok((loc + 1, Hvalue::HNone))
    } else if tag == 2 && loc + 1 < code.len() {
        Ok((loc + 2, Hvalue::Hu8(code[loc + 1])))
    } else if tag == 3 && loc + 1 < code.len() {
        Ok((loc + 2, Hvalue::HPromise(code[loc + 1])))
    } else {
        Err(VmError::InvalidOpcode)
    }
}

/// Decodes a name operand starting at `loc`.
fn decode_name(loc: usize, code: &Vec<u8>) -> (r: Result<(usize, Vec<u8>), VmError>)
    ensures
        match r {
            Ok((next, n)) => spec_decode_name(code@, loc as int) == Some((n@, next as int))
                && loc < next <= code@.len(),
            Err(e) => spec_decode_name(code@, loc as int) is None
                && e == VmError::InvalidOpcode,
        },
{
    let clen = code.len();
    if loc >= clen {
        return Err(VmError::InvalidOpcode);
    }
    let n = code[loc] as usize;
    if n + 1 < clen - loc && code[loc + 1 + n] == 0 {
        let mut name: Vec<u8> = Vec::new();
        let mut i: usize = 0;
        while i < n
            invariant
                i <= n,
                loc + 1 + n < clen,
                clen == code@.len(),
                name@ == code@.subrange(loc + 1, loc + 1 + i as int),
            decreases n - i,
        {
            name.push(code[loc + 1 + i]);
            i = i + 1;
            proof {
                assert(code@.subrange(loc + 1, loc + 1 + i as int)
                    =~= code@.subrange(loc + 1, loc + i as int) + seq![code@[loc + i]]);
            }
        }
        Ok((loc + n + 2, name))
    } else {
        Err(VmError::InvalidOpcode)
    }
}

/// Codec round trip: decoding the encoding of any encodable instruction, at
/// any position of a larger byte stream, yields the instruction back and
/// consumes exactly its encoding.
pub proof fn lemma_codec_round_trip_at(code: Seq<u8>, i: int, op: OpG)
    requires
        op_encodable(op),
        0 <= i,
        i + spec_encode_op(op).len() <= code.len(),
        code.subrange(i, i + spec_encode_op(op).len() as int) == spec_encode_op(op),
    ensures
        spec_decode_op(code, i) == Some((op, i + spec_encode_op(op).len() as int)),
{
    let enc = spec_encode_op(op);
    assert forall|k: int| 0 <= k < enc.len() implies code[i + k] == enc[k] by {
        assert(code.subrange(i, i + enc.len() as int)[k] == code[i + k]);
    }
    match op {
        OpG::Lload(n) | OpG::Lstore(n) | OpG::Eload(n) | OpG::Estore(n) => {
            let tag = spec_op_tag(op);
            assert(enc =~= seq![tag, n.len() as u8] + n + seq![0u8]);
            assert(enc[1] == n.len() as u8);
            assert(enc[2 + n.len() as int] == 0);
            assert(code[i + 1] == n.len() as u8);
            assert(code[i + 2 + n.len() as int] == 0);
            assert forall|k: int| 0 <= k < n.len() implies code[i + 2 + k] == n[k] by {
                assert(code[i + (2 + k)] == enc[2 + k]);
                assert(enc[2 + k] == n[k]);
            }
            assert(code.subrange(i + 2, i + 2 + n.len() as int) =~= n);
            assert(code[i + 0] == enc[0]);
            assert(code[i] == spec_op_tag(op));
            assert(enc.len() == n.len() + 3);
            assert(spec_decode_name(code, i + 1) == Some((n, i + n.len() as int + 3)));
            assert(spec_decode_op(code, i) == Some((op, i + n.len() as int + 3)));
        },
        OpG::Push(v) => {
            assert(code[i + 0] == enc[0]);
            assert(code[i + 1] == enc[1]);
            if enc.len() == 3 {
                assert(code[i + 2] == enc[2]);
            }
            match v {
                Hvalue::HNone => {
                    assert(spec_decode_value(code, i + 1) == Some((v, i + 2)));
                },
                Hvalue::Hu8(b) => {
                    assert(spec_decode_value(code, i + 1) == Some((v, i + 3)));
                },
                Hvalue::HPromise(p) => {
                    assert(spec_decode_value(code, i + 1) == Some((v, i + 3)));
                },
            }
        },
        OpG::Message(f) => {
            assert(code[i + 0] == enc[0]);
            assert(code[i + 1] == enc[1]);
        },
        OpG::ForeignCall(f) => {
            assert(code[i + 0] == enc[0]);
            assert(code[i + 1] == enc[1]);
        },
        _ => {
            assert(code[i + 0] == enc[0]);
        },
    }
}

/// Codec round trip, decode side: the bytes a successful decoding consumes
/// are exactly the instruction's encoding, so `encode(decode(bytes))` gives
/// the bytes back and decoding always strictly advances.
pub proof fn lemma_decode_encode_bytes(code: Seq<u8>, i: int, op: OpG, j: int)
    requires
        spec_decode_op(code, i) == Some((op, j)),
    ensures
        op_encodable(op),
        i < j <= code.len(),
        j - i == spec_encode_op(op).len(),
        code.subrange(i, j) == spec_encode_op(op),
{
    match op {
        OpG::Lload(n) | OpG::Lstore(n) | OpG::Eload(n) | OpG::Estore(n) => {
            let ln = code[i + 1] as int;
            assert(spec_decode_name(code, i + 1) == Some((n, j)));
            assert(n == code.subrange(i + 2, i + 2 + ln));
            assert(n.len() == ln);
            assert(code[i + 1] == n.len() as u8);
            assert(code[i + 2 + n.len()] == 0);
            assert(code.subrange(i, j) =~= seq![code[i], n.len() as u8] + n + seq![0u8]) by {
                assert forall|k: int| 0 <= k < j - i implies code.subrange(i, j)[k] == (seq![
                    code[i],
                    n.len() as u8,
                ] + n + seq![0u8])[k] by {
                    if 2 <= k < 2 + n.len() {
                        assert(n[k - 2] == code[i + 2 + (k - 2)]);
                    }
                }
            }
            assert(code.subrange(i, j) =~= spec_encode_op(op));
        },
        OpG::Push(v) => {
            assert(spec_decode_value(code, i + 1) == Some((v, j)));
            match v {
                Hvalue::HNone => {
                    assert(code.subrange(i, j) =~= seq![code[i], code[i + 1]]);
                    assert(code.subrange(i, j) =~= spec_encode_op(op));
                },
                Hvalue::Hu8(_) | Hvalue::HPromise(_) => {
                    assert(code.subrange(i, j) =~= seq![code[i], code[i + 1], code[i + 2]]);
                    assert(code.subrange(i, j) =~= spec_encode_op(op));
                },
            }
        },
        OpG::Message(_) | OpG::ForeignCall(_) => {
            assert(code.subrange(i, j) =~= seq![code[i], code[i + 1]]);
            assert(code.subrange(i, j) =~= spec_encode_op(op));
        },
        _ => {
            assert(code.subrange(i, j) =~= seq![code[i]]);
            assert(code.subrange(i, j) =~= spec_encode_op(op));
        },
    }
}

/// Codec round trip on a single instruction: `decode(encode(op))` yields
/// `op` and consumes the whole encoding.
pub proof fn lemma_codec_round_trip(op: OpG)
    requires
        op_encodable(op),
    ensures
        spec_decode_op(spec_encode_op(op), 0) == Some((
            op,
            spec_encode_op(op).len() as int,
        )),
{
    let enc = spec_encode_op(op);
    assert(enc.subrange(0, enc.len() as int) =~= enc);
    lemma_codec_round_trip_at(enc, 0, op);
}

} // verus!
