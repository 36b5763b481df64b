//! The binary container: parsing of the header tables and stream-decoding
//! of the code region.
//!
//! Layout: `header || code`, where the header is the entity-data table
//! followed by the entity-function-location table. Each table opens with a
//! one-byte entry count. A data row is `entity_id:u8 || name_bytes || 0x00 ||
//! encoded_value`; a function row is `entity_id:u8 || func_id:u8 ||
//! start:u16_be || length:u16_be`, with `start` absolute into the whole
//! binary.

use vstd::prelude::*;
use crate::opcodes::{Hvalue, Op, OpG, VmError, spec_decode_op, spec_decode_value, decode_instruction, decode_value_at, lemma_decode_encode_bytes};

verus! {

/// One row of the entity-function-location table.
#[derive(Clone, Copy, PartialEq, Eq, Structural, Debug)]
pub struct FuncRow {
    pub entity_id: u32,
    pub func_id: u32,
    pub start: usize,
    pub len: usize,
}

/// The function-location table: rows in their on-disk order.
pub struct FuncTable {
    pub rows: Vec<FuncRow>,
}

/// The last row for `(entity_id, func_id)` at or below index `i`: a later
/// duplicate row overrides an earlier one, exactly as filling a nested map
/// row by row would.
pub open spec fn spec_lookup(rows: Seq<FuncRow>, entity_id: u32, func_id: u32, i: int) -> Option<
    FuncRow,
>
    decreases i + 1,
{
    if i < 0 || i >= rows.len() {
        None
    } else if rows[i].entity_id == entity_id && rows[i].func_id == func_id {
        Some(rows[i])
    } else {
        spec_lookup(rows, entity_id, func_id, i - 1)
    }
}

impl FuncTable {
    /// Finds the location of a function of an entity: the last matching row
    /// wins, as it would when the rows fill a nested map.
    pub fn lookup(&self, entity_id: u32, func_id: u32) -> (r: Option<FuncRow>)
        ensures
            r == spec_lookup(self.rows@, entity_id, func_id, self.rows@.len() - 1),
    {
        let mut i: usize = self.rows.len();
        while i > 0
            invariant
                i <= self.rows@.len(),
                spec_lookup(self.rows@, entity_id, func_id, self.rows@.len() - 1)
                    == spec_lookup(self.rows@, entity_id, func_id, i as int - 1),
            decreases i,
        {
            i = i - 1;
            let row = self.rows[i];
            if row.entity_id == entity_id && row.func_id == func_id {
                return Some(row);
            }
        }
        None
    }
}

/// The position of the first zero byte at or after `i`.
pub open spec fn spec_find_zero(code: Seq<u8>, i: int) -> Option<int>
    decreases code.len() - i,
{
    if i < 0 || i >= code.len() {
        None
    } else if code[i] == 0 {
        Some(i)
    } else {
        spec_find_zero(code, i + 1)
    }
}

/// Parsing of one data row at `i`: entity id, zero-terminated name, value.
pub open spec fn spec_parse_data_row(code: Seq<u8>, i: int) -> Option<
    ((u32, Seq<u8>, Hvalue), int),
> {
    if 0 <= i < code.len() {
        match spec_find_zero(code, i + 1) {
            Some(z) => match spec_decode_value(code, z + 1) {
                Some((v, j)) => Some(((code[i] as u32, code.subrange(i + 1, z), v), j)),
                None => None,
            },
            None => None,
        }
    } else {
        None
    }
}

/// Parsing of `n` data rows starting at `i`.
pub open spec fn spec_parse_data_rows(code: Seq<u8>, i: int, n: nat) -> Option<
    (Seq<(u32, Seq<u8>, Hvalue)>, int),
>
    decreases n,
{
    if n == 0 {
        Some((Seq::empty(), i))
    } else {
        match spec_parse_data_row(code, i) {
            Some((row, j)) => match spec_parse_data_rows(code, j, (n - 1) as nat) {
                Some((rest, end)) => Some((seq![row] + rest, end)),
                None => None,
            },
            None => None,
        }
    }
}

/// Parsing of the whole data table at `i`: a count byte, then the rows.
pub open spec fn spec_parse_data_table(code: Seq<u8>, i: int) -> Option<
    (Seq<(u32, Seq<u8>, Hvalue)>, int),
> {
    if 0 <= i < code.len() {
        spec_parse_data_rows(code, i + 1, code[i] as nat)
    } else {
        None
    }
}

/// Parsing of one function row: six bytes.
pub open spec fn spec_parse_func_row(code: Seq<u8>, i: int) -> Option<(FuncRow, int)> {
    if 0 <= i && i + 6 <= code.len() {
        Some((
            FuncRow {
                entity_id: code[i] as u32,
                func_id: code[i + 1] as u32,
                start: ((code[i + 2] as int) * 256 + (code[i + 3] as int)) as usize,
                len: ((code[i + 4] as int) * 256 + (code[i + 5] as int)) as usize,
            },
            i + 6,
        ))
    } else {
        None
    }
}

/// Parsing of `n` function rows starting at `i`.
pub open spec fn spec_parse_func_rows(code: Seq<u8>, i: int, n: nat) -> Option<
    (Seq<FuncRow>, int),
>
    decreases n,
{
    if n == 0 {
        Some((Seq::empty(), i))
    } else {
        match spec_parse_func_row(code, i) {
            Some((row, j)) => match spec_parse_func_rows(code, j, (n - 1) as nat) {
                Some((rest, end)) => Some((seq![row] + rest, end)),
                None => None,
            },
            None => None,
        }
    }
}

/// Parsing of the whole function table at `i`.
pub open spec fn spec_parse_func_table(code: Seq<u8>, i: int) -> Option<(Seq<FuncRow>, int)> {
    if 0 <= i < code.len() {
        spec_parse_func_rows(code, i + 1, code[i] as nat)
    } else {
        None
    }
}

/// Reads a zero-terminated name; returns it with the index of the zero byte.
fn read_name(loc: usize, vblock: &Vec<u8>) -> (r: Result<(Vec<u8>, usize), VmError>)
    ensures
        match r {
            Ok((name, z)) => spec_find_zero(vblock@, loc as int) == Some(z as int)
                && name@ == vblock@.subrange(loc as int, z as int) && loc <= z < vblock@.len(),
            Err(e) => spec_find_zero(vblock@, loc as int) is None && e == VmError::InvalidOpcode,
        },
{
    if loc >= vblock.len() {
        return Err(VmError::InvalidOpcode);
    }
    let mut name: Vec<u8> = Vec::new();
    let mut i: usize = loc;
    while i < vblock.len() && vblock[i] != 0
        invariant
            loc <= i <= vblock@.len(),
            name@ == vblock@.subrange(loc as int, i as int),
            spec_find_zero(vblock@, loc as int) == spec_find_zero(vblock@, i as int),
        decreases vblock@.len() - i,
    {
        name.push(vblock[i]);
        i = i + 1;
        proof {
            assert(vblock@.subrange(loc as int, i as int)
                =~= vblock@.subrange(loc as int, i - 1) + seq![vblock@[i - 1]]);
        }
    }
    if i < vblock.len() {
        Ok((name, i))
    } else {
        Err(VmError::InvalidOpcode)
    }
}

/// Parses `n` data rows, mirroring `spec_parse_data_rows`.
fn parse_data_rows(loc: usize, vblock: &Vec<u8>, n: u8) -> (r: Result<
    (Vec<(u32, Vec<u8>, Hvalue)>, usize),
    VmError,
>)
    ensures
        match r {
            Ok((rows, end)) => {
                &&& spec_parse_data_rows(vblock@, loc as int, n as nat) matches Some((srows, send))
                    && srows.len() == rows@.len() && send == end
                    && (forall|k: int| 0 <= k < rows@.len()
                        ==> (#[trigger] rows@[k]).0 == srows[k].0 && rows@[k].1@ == srows[k].1
                            && rows@[k].2 == srows[k].2)
            },
            Err(e) => spec_parse_data_rows(vblock@, loc as int, n as nat) is None
                && e == VmError::InvalidOpcode,
        },
    decreases n,
{
    if n == 0 {
        return Ok((Vec::new(), loc));
    }
    if loc >= vblock.len() {
        return Err(VmError::InvalidOpcode);
    }
    let eid = vblock[loc];
    let (name, z) = match read_name(loc + 1, vblock) {
        Ok(p) => p,
        Err(e) => {
            return Err(e);
        },
    };
    let (j, v) = match decode_value_at(z + 1, vblock) {
        Ok(p) => p,
        Err(e) => {
            return Err(e);
        },
    };
    match parse_data_rows(j, vblock, n - 1) {
        Ok((mut rest, end)) => {
            rest.insert(0, (eid as u32, name, v));
            Ok((rest, end))
        },
        Err(e) => Err(e),
    }
}

/// Loads the entity-data table at `*location`, advancing the cursor past it.
/// Each row gives a declared data field of an entity and its initial value.
pub fn load_entity_data_table(location: &mut usize, vblock: &Vec<u8>) -> (r: Result<
    Vec<(u32, Vec<u8>, Hvalue)>,
    VmError,
>)
    ensures
        match r {
            Ok(rows) => {
                &&& spec_parse_data_table(vblock@, *old(location) as int) matches Some((
                    srows,
                    send,
                )) && srows.len() == rows@.len() && send == *final(location) as int
                    && (forall|k: int| 0 <= k < rows@.len()
                        ==> (#[trigger] rows@[k]).0 == srows[k].0 && rows@[k].1@ == srows[k].1
                            && rows@[k].2 == srows[k].2)
            },
            Err(e) => spec_parse_data_table(vblock@, *old(location) as int) is None
                && e == VmError::InvalidOpcode,
        },
{
    if *location >= vblock.len() {
        return Err(VmError::InvalidOpcode);
    }
    let n = vblock[*location];
    match parse_data_rows(*location + 1, vblock, n) {
        Ok((rows, end)) => {
            *location = end;
            Ok(rows)
        },
        Err(e) => Err(e),
    }
}

/// Parses `n` function rows, mirroring `spec_parse_func_rows`.
fn parse_func_rows(loc: usize, vblock: &Vec<u8>, n: u8) -> (r: Result<(Vec<FuncRow>, usize), VmError>)
    ensures
        match r {
            Ok((rows, end)) => spec_parse_func_rows(vblock@, loc as int, n as nat) == Some((
                rows@,
                end as int,
            )),
            Err(e) => spec_parse_func_rows(vblock@, loc as int, n as nat) is None
                && e == VmError::InvalidOpcode,
        },
    decreases n,
{
    if n == 0 {
        proof {
            assert(spec_parse_func_rows(vblock@, loc as int, n as nat) == Some((
                Seq::<FuncRow>::empty(),
                loc as int,
            )));
        }
        return Ok((Vec::new(), loc));
    }
    let clen = vblock.len();
    if loc >= clen || clen - loc < 6 {
        return Err(VmError::InvalidOpcode);
    }
    let row = FuncRow {
        entity_id: vblock[loc] as u32,
        func_id: vblock[loc + 1] as u32,
        start: (vblock[loc + 2] as usize) * 256 + (vblock[loc + 3] as usize),
        len: (vblock[loc + 4] as usize) * 256 + (vblock[loc + 5] as usize),
    };
    match parse_func_rows(loc + 6, vblock, n - 1) {
        Ok((mut rest, end)) => {
            rest.insert(0, row);
            proof {
                assert(rest@ =~= seq![row] + rest@.subrange(1, rest@.len() as int));
            }
            Ok((rest, end))
        },
        Err(e) => Err(e),
    }
}

/// Loads the entity-function-location table at `*location`, advancing the
/// cursor past it. Row order is the on-disk order.
pub fn load_entity_function_table(location: &mut usize, vblock: &Vec<u8>) -> (r: Result<
    FuncTable,
    VmError,
>)
    ensures
        match r {
            Ok(table) => spec_parse_func_table(vblock@, *old(location) as int) matches Some((
                srows,
                send,
            )) && srows == table.rows@ && send == *final(location) as int,
            Err(e) => spec_parse_func_table(vblock@, *old(location) as int) is None
                && e == VmError::InvalidOpcode,
        },
{
    if *location >= vblock.len() {
        return Err(VmError::InvalidOpcode);
    }
    let n = vblock[*location];
    match parse_func_rows(*location + 1, vblock, n) {
        Ok((rows, end)) => {
            *location = end;
            Ok(FuncTable { rows })
        },
        Err(e) => Err(e),
    }
}

/// The instruction views of a list of instructions.
pub open spec fn ops_view(s: Seq<Op>) -> Seq<OpG> {
    s.map_values(|o: Op| o@)
}

/// The instructions of `[i, end)` of `code`, when that range decodes
/// without residue: instruction follows instruction and the last one ends
/// exactly at `end`.
pub open spec fn spec_decode_ops(code: Seq<u8>, i: int, end: int) -> Option<Seq<OpG>>
    decreases end - i,
        via spec_decode_ops_dec
{
    if i >= end {
        if i == end {
            Some(Seq::empty())
        } else {
            None
        }
    } else {
        match spec_decode_op(code, i) {
            Some((op, j)) => if j <= end {
                match spec_decode_ops(code, j, end) {
                    Some(rest) => Some(seq![op] + rest),
                    None => None,
                }
            } else {
                None
            },
            None => None,
        }
    }
}

#[via_fn]
proof fn spec_decode_ops_dec(code: Seq<u8>, i: int, end: int) {
    if i < end {
        match spec_decode_op(code, i) {
            Some((op, j)) => {
                lemma_decode_encode_bytes(code, i, op, j);
            },
            None => {},
        }
    }
}

/// Decodes the instructions of one function's code range: succeeds with the
/// decoded instructions exactly when the range decodes without residue.
#[verifier::loop_isolation(false)]
pub fn decode_range(binary_code: &Vec<u8>, start: usize, len: usize) -> (r: Result<
    Vec<Op>,
    VmError,
>)
    requires
        start + len <= binary_code@.len(),
    ensures
        match r {
            Ok(ops) => spec_decode_ops(binary_code@, start as int, start + len) == Some(
                ops_view(ops@),
            ),
            Err(e) => spec_decode_ops(binary_code@, start as int, start + len) is None
                && e == VmError::InvalidOpcode,
        },
{
    let total = binary_code.len();
    let end = start + len;
    let mut ops: Vec<Op> = Vec::new();
    let mut x = start;
    while x < end
        invariant
            start <= x <= end,
            ({
                let full = spec_decode_ops(binary_code@, start as int, end as int);
                match spec_decode_ops(binary_code@, x as int, end as int) {
                    Some(rest) => full == Some(ops_view(ops@) + rest),
                    None => full is None,
                }
            }),
        decreases end - x,
    {
        match decode_instruction(x, binary_code) {
            Ok((next, op)) => {
                if next > end {
                    // The last instruction would run past the range: the
                    // range does not decode without residue.
                    return Err(VmError::InvalidOpcode);
                }
                let ghost oldops = ops@;
                ops.push(op);
                proof {
                    assert(ops_view(ops@) =~= ops_view(oldops) + seq![op@]);
                    match spec_decode_ops(binary_code@, next as int, end as int) {
                        Some(rest2) => {
                            assert(ops_view(oldops) + (seq![op@] + rest2)
                                =~= ops_view(ops@) + rest2);
                        },
                        None => {},
                    }
                }
                x = next;
            },
            Err(e) => {
                return Err(e);
            },
        }
    }
    proof {
        assert(ops_view(ops@) + Seq::<OpG>::empty() =~= ops_view(ops@));
    }
    Ok(ops)
}

/// Decodes every function listed in the binary's function table: one
/// `(entity_id, func_id, instructions)` triple per table row, in table
/// order. Fails exactly when a header table does not parse, a row's range
/// leaves the binary, or a range does not decode without residue.
#[verifier::loop_isolation(false)]
pub fn disassemble(binary_code: &Vec<u8>) -> (r: Result<Vec<(u32, u32, Vec<Op>)>, VmError>)
    ensures
        match r {
            Ok(listing) => spec_parse_data_table(binary_code@, 0) matches Some((d0, q))
                && spec_parse_func_table(binary_code@, q) matches Some((rows, e0))
                && listing@.len() == rows.len()
                && (forall|i: int| 0 <= i < rows.len() ==> {
                    &&& (#[trigger] listing@[i]).0 == rows[i].entity_id
                    &&& listing@[i].1 == rows[i].func_id
                    &&& rows[i].start + rows[i].len <= binary_code@.len()
                    &&& spec_decode_ops(
                        binary_code@,
                        rows[i].start as int,
                        rows[i].start + rows[i].len,
                    ) == Some(ops_view(listing@[i].2@))
                }),
            Err(e) => e == VmError::InvalidOpcode && (spec_parse_data_table(binary_code@, 0) is None
                || (spec_parse_data_table(binary_code@, 0) matches Some((d0, q))
                    && (spec_parse_func_table(binary_code@, q) is None
                        || (spec_parse_func_table(binary_code@, q) matches Some((rows, e0))
                            && exists|i: int| 0 <= i < rows.len()
                                && ((#[trigger] rows[i]).start + rows[i].len
                                    > binary_code@.len()
                                    || spec_decode_ops(
                                        binary_code@,
                                        rows[i].start as int,
                                        rows[i].start + rows[i].len,
                                    ) is None))))),
        },
{
    let mut z: usize = 0;
    match load_entity_data_table(&mut z, binary_code) {
        Ok(_) => {},
        Err(e) => {
            return Err(e);
        },
    }
    let table = match load_entity_function_table(&mut z, binary_code) {
        Ok(t) => t,
        Err(e) => {
            return Err(e);
        },
    };
    let mut out: Vec<(u32, u32, Vec<Op>)> = Vec::new();
    let mut i: usize = 0;
    while i < table.rows.len()
        invariant
            i <= table.rows@.len(),
            out@.len() == i,
            forall|j: int| 0 <= j < i ==> {
                &&& (#[trigger] out@[j]).0 == table.rows@[j].entity_id
                &&& out@[j].1 == table.rows@[j].func_id
                &&& table.rows@[j].start + table.rows@[j].len <= binary_code@.len()
                &&& spec_decode_ops(
                    binary_code@,
                    table.rows@[j].start as int,
                    table.rows@[j].start + table.rows@[j].len,
                ) == Some(ops_view(out@[j].2@))
            },
        decreases table.rows@.len() - i,
    {
        let row = table.rows[i];
        if row.start > binary_code.len() || binary_code.len() - row.start < row.len {
            proof {
                assert(table.rows@[i as int].start + table.rows@[i as int].len
                    > binary_code@.len());
            }
            return Err(VmError::InvalidOpcode);
        }
        match decode_range(binary_code, row.start, row.len) {
            Ok(ops) => {
                out.push((row.entity_id, row.func_id, ops));
            },
            Err(e) => {
                proof {
                    assert(spec_decode_ops(
                        binary_code@,
                        table.rows@[i as int].start as int,
                        table.rows@[i as int].start + table.rows@[i as int].len,
                    ) is None);
                }
                return Err(e);
            },
        }
        i = i + 1;
    }
    Ok(out)
}

} // verus!
