//! The operations of basic blocks and their encoding.

use vstd::prelude::*;

use crate::bytes::{
    count_bytes, holds_at, integer_at, law_count_round_trip, law_le_round_trip, le_bytes,
    le_integer, le_value, lemma_count_bytes_len, lemma_holds_at_split, lemma_le_bytes_len,
    lemma_pow256_values, read_integer_at, read_slice_at, read_u8_at, slice_at, usize_encoded_len,
    write_count, write_le,
};
use crate::error::{DeserializationError, InvalidValue};
use crate::felt::{Felt, MODULUS};

verus! {

/// An operation of a basic block.
///
/// `Assert`, `U32assert2` and `MpVerify` carry an error code, `Push` an immediate value.
#[derive(Clone, Copy, PartialEq, Eq, Structural, Debug)]
pub enum Operation {
    Noop,
    Assert(Felt),
    SDepth,
    Caller,
    Clk,
    Add,
    Neg,
    Mul,
    Inv,
    Incr,
    And,
    Or,
    Not,
    Eq,
    Eqz,
    Expacc,
    Ext2Mul,
    U32split,
    U32add,
    U32assert2(Felt),
    U32add3,
    U32sub,
    U32mul,
    U32madd,
    U32div,
    U32and,
    U32xor,
    Pad,
    Drop,
    Dup0,
    Dup1,
    Dup2,
    Dup3,
    Dup4,
    Dup5,
    Dup6,
    Dup7,
    Dup9,
    Dup11,
    Dup13,
    Dup15,
    Swap,
    SwapW,
    SwapW2,
    SwapW3,
    SwapDW,
    MovUp2,
    MovUp3,
    MovUp4,
    MovUp5,
    MovUp6,
    MovUp7,
    MovUp8,
    MovDn2,
    MovDn3,
    MovDn4,
    MovDn5,
    MovDn6,
    MovDn7,
    MovDn8,
    CSwap,
    CSwapW,
    Push(Felt),
    AdvPop,
    AdvPopW,
    MLoadW,
    MStoreW,
    MLoad,
    MStore,
    MStream,
    Pipe,
    CryptoStream,
    HPerm,
    MpVerify(Felt),
    MrUpdate,
    FriE2F4,
    HornerBase,
    HornerExt,
    EvalCircuit,
    Emit,
    LogDeferred,
}

/// Number of bits that an operation code occupies in an operation group.
pub const OP_BITS: usize = 7;

impl Operation {
    /// The code that identifies the operation.
    #[verifier::opaque]
    pub open spec fn code(self) -> u8 {
        match self {
            Operation::Noop => 0,
            Operation::Assert(_) => 32,
            Operation::SDepth => 62,
            Operation::Caller => 9,
            Operation::Clk => 63,
            Operation::Add => 34,
            Operation::Neg => 2,
            Operation::Mul => 35,
            Operation::Inv => 3,
            Operation::Incr => 4,
            Operation::And => 36,
            Operation::Or => 37,
            Operation::Not => 5,
            Operation::Eq => 33,
            Operation::Eqz => 1,
            Operation::Expacc => 15,
            Operation::Ext2Mul => 25,
            Operation::U32split => 72,
            Operation::U32add => 64,
            Operation::U32assert2(_) => 74,
            Operation::U32add3 => 76,
            Operation::U32sub => 66,
            Operation::U32mul => 68,
            Operation::U32madd => 78,
            Operation::U32div => 70,
            Operation::U32and => 38,
            Operation::U32xor => 39,
            Operation::Pad => 48,
            Operation::Drop => 41,
            Operation::Dup0 => 49,
            Operation::Dup1 => 50,
            Operation::Dup2 => 51,
            Operation::Dup3 => 52,
            Operation::Dup4 => 53,
            Operation::Dup5 => 54,
            Operation::Dup6 => 55,
            Operation::Dup7 => 56,
            Operation::Dup9 => 57,
            Operation::Dup11 => 58,
            Operation::Dup13 => 59,
            Operation::Dup15 => 60,
            Operation::Swap => 8,
            Operation::SwapW => 24,
            Operation::SwapW2 => 28,
            Operation::SwapW3 => 29,
            Operation::SwapDW => 30,
            Operation::MovUp2 => 10,
            Operation::MovUp3 => 12,
            Operation::MovUp4 => 16,
            Operation::MovUp5 => 18,
            Operation::MovUp6 => 20,
            Operation::MovUp7 => 22,
            Operation::MovUp8 => 26,
            Operation::MovDn2 => 11,
            Operation::MovDn3 => 13,
            Operation::MovDn4 => 17,
            Operation::MovDn5 => 19,
            Operation::MovDn6 => 21,
            Operation::MovDn7 => 23,
            Operation::MovDn8 => 27,
            Operation::CSwap => 42,
            Operation::CSwapW => 43,
            Operation::Push(_) => 91,
            Operation::AdvPop => 61,
            Operation::AdvPopW => 14,
            Operation::MLoadW => 44,
            Operation::MStoreW => 46,
            Operation::MLoad => 7,
            Operation::MStore => 45,
            Operation::MStream => 83,
            Operation::Pipe => 82,
            Operation::CryptoStream => 100,
            Operation::HPerm => 80,
            Operation::MpVerify(_) => 81,
            Operation::MrUpdate => 96,
            Operation::FriE2F4 => 40,
            Operation::HornerBase => 90,
            Operation::HornerExt => 89,
            Operation::EvalCircuit => 93,
            Operation::Emit => 31,
            Operation::LogDeferred => 94,
        }
    }

    /// The error code or immediate value is canonical.
    pub open spec fn wf(self) -> bool {
        match self {
            Operation::Assert(e) => e.wf(),
            Operation::U32assert2(e) => e.wf(),
            Operation::MpVerify(e) => e.wf(),
            Operation::Push(v) => v.wf(),
            _ => true,
        }
    }

    /// The value that the operation pushes, if it carries one.
    pub open spec fn immediate(self) -> Option<Felt> {
        match self {
            Operation::Push(v) => Some(v),
            _ => None,
        }
    }

    /// The error code that the operation carries, if any.
    pub open spec fn error_code_spec(self) -> Option<Felt> {
        match self {
            Operation::Assert(e) => Some(e),
            Operation::U32assert2(e) => Some(e),
            Operation::MpVerify(e) => Some(e),
            _ => None,
        }
    }

    /// The operation on the wire: its code, then an error code in eight bytes or an immediate as
    /// a variable-length integer.
    #[verifier::opaque]
    pub open spec fn bytes(self) -> Seq<u8> {
        match self {
            Operation::Assert(e) => seq![self.code()] + le_bytes(e.value as nat, 8),
            Operation::U32assert2(e) => seq![self.code()] + le_bytes(e.value as nat, 8),
            Operation::MpVerify(e) => seq![self.code()] + le_bytes(e.value as nat, 8),
            Operation::Push(v) => seq![self.code()] + count_bytes(v.value as nat),
            _ => seq![self.code()],
        }
    }

    pub fn op_code(&self) -> (code: u8)
        ensures
            code == self.code(),
            code < 128,
    {
        proof {
            reveal(Operation::code);
        }
        match self {
            Operation::Noop => 0,
            Operation::Assert(_) => 32,
            Operation::SDepth => 62,
            Operation::Caller => 9,
            Operation::Clk => 63,
            Operation::Add => 34,
            Operation::Neg => 2,
            Operation::Mul => 35,
            Operation::Inv => 3,
            Operation::Incr => 4,
            Operation::And => 36,
            Operation::Or => 37,
            Operation::Not => 5,
            Operation::Eq => 33,
            Operation::Eqz => 1,
            Operation::Expacc => 15,
            Operation::Ext2Mul => 25,
            Operation::U32split => 72,
            Operation::U32add => 64,
            Operation::U32assert2(_) => 74,
            Operation::U32add3 => 76,
            Operation::U32sub => 66,
            Operation::U32mul => 68,
            Operation::U32madd => 78,
            Operation::U32div => 70,
            Operation::U32and => 38,
            Operation::U32xor => 39,
            Operation::Pad => 48,
            Operation::Drop => 41,
            Operation::Dup0 => 49,
            Operation::Dup1 => 50,
            Operation::Dup2 => 51,
            Operation::Dup3 => 52,
            Operation::Dup4 => 53,
            Operation::Dup5 => 54,
            Operation::Dup6 => 55,
            Operation::Dup7 => 56,
            Operation::Dup9 => 57,
            Operation::Dup11 => 58,
            Operation::Dup13 => 59,
            Operation::Dup15 => 60,
            Operation::Swap => 8,
            Operation::SwapW => 24,
            Operation::SwapW2 => 28,
            Operation::SwapW3 => 29,
            Operation::SwapDW => 30,
            Operation::MovUp2 => 10,
            Operation::MovUp3 => 12,
            Operation::MovUp4 => 16,
            Operation::MovUp5 => 18,
            Operation::MovUp6 => 20,
            Operation::MovUp7 => 22,
            Operation::MovUp8 => 26,
            Operation::MovDn2 => 11,
            Operation::MovDn3 => 13,
            Operation::MovDn4 => 17,
            Operation::MovDn5 => 19,
            Operation::MovDn6 => 21,
            Operation::MovDn7 => 23,
            Operation::MovDn8 => 27,
            Operation::CSwap => 42,
            Operation::CSwapW => 43,
            Operation::Push(_) => 91,
            Operation::AdvPop => 61,
            Operation::AdvPopW => 14,
            Operation::MLoadW => 44,
            Operation::MStoreW => 46,
            Operation::MLoad => 7,
            Operation::MStore => 45,
            Operation::MStream => 83,
            Operation::Pipe => 82,
            Operation::CryptoStream => 100,
            Operation::HPerm => 80,
            Operation::MpVerify(_) => 81,
            Operation::MrUpdate => 96,
            Operation::FriE2F4 => 40,
            Operation::HornerBase => 90,
            Operation::HornerExt => 89,
            Operation::EvalCircuit => 93,
            Operation::Emit => 31,
            Operation::LogDeferred => 94,
        }
    }

    pub fn imm_value(&self) -> (value: Option<Felt>)
        ensures
            value == self.immediate(),
    {
        match self {
            Operation::Push(v) => Some(*v),
            _ => None,
        }
    }

    pub fn error_code(&self) -> (code: Option<Felt>)
        ensures
            code == self.error_code_spec(),
    {
        match self {
            Operation::Assert(e) => Some(*e),
            Operation::U32assert2(e) => Some(*e),
            Operation::MpVerify(e) => Some(*e),
            _ => None,
        }
    }

    /// Number of bytes that the operation occupies on the wire.
    pub fn encoded_size(&self) -> (size: usize)
        ensures
            size == self.bytes().len(),
    {
        proof {
            reveal(Operation::bytes);
            if let Some(v) = self.immediate() {
                lemma_count_bytes_len(v.value as nat);
            }
            if let Some(e) = self.error_code_spec() {
                lemma_le_bytes_len(e.value as nat, 8);
            }
        }
        match self {
            Operation::Assert(_) => 9,
            Operation::U32assert2(_) => 9,
            Operation::MpVerify(_) => 9,
            Operation::Push(v) => 1 + usize_encoded_len(v.value),
            _ => 1,
        }
    }

    /// Appends the operation.
    pub fn write_into(&self, out: &mut Vec<u8>)
        ensures
            final(out)@ == old(out)@ + self.bytes(),
    {
        let ghost before = out@;
        proof {
            reveal(Operation::bytes);
        }
        out.push(self.op_code());
        match self {
            Operation::Assert(e) => write_le(out, e.value, 8),
            Operation::U32assert2(e) => write_le(out, e.value, 8),
            Operation::MpVerify(e) => write_le(out, e.value, 8),
            Operation::Push(v) => write_count(out, v.value),
            _ => {},
        }
        assert(out@ =~= before + self.bytes());
    }

    /// The bytes of the operation.
    pub fn to_bytes(&self) -> (bytes: Vec<u8>)
        ensures
            bytes@ == self.bytes(),
    {
        let mut out: Vec<u8> = Vec::new();
        self.write_into(&mut out);
        assert(out@ =~= self.bytes());
        out
    }
}

/// The operation without an operand that a code stands for.
#[verifier::opaque]
pub open spec fn plain_operation(code: u8) -> Option<Operation> {
    match code {
        0 => Some(Operation::Noop),
        1 => Some(Operation::Eqz),
        2 => Some(Operation::Neg),
        3 => Some(Operation::Inv),
        4 => Some(Operation::Incr),
        5 => Some(Operation::Not),
        7 => Some(Operation::MLoad),
        8 => Some(Operation::Swap),
        9 => Some(Operation::Caller),
        10 => Some(Operation::MovUp2),
        11 => Some(Operation::MovDn2),
        12 => Some(Operation::MovUp3),
        13 => Some(Operation::MovDn3),
        14 => Some(Operation::AdvPopW),
        15 => Some(Operation::Expacc),
        16 => Some(Operation::MovUp4),
        17 => Some(Operation::MovDn4),
        18 => Some(Operation::MovUp5),
        19 => Some(Operation::MovDn5),
        20 => Some(Operation::MovUp6),
        21 => Some(Operation::MovDn6),
        22 => Some(Operation::MovUp7),
        23 => Some(Operation::MovDn7),
        24 => Some(Operation::SwapW),
        25 => Some(Operation::Ext2Mul),
        26 => Some(Operation::MovUp8),
        27 => Some(Operation::MovDn8),
        28 => Some(Operation::SwapW2),
        29 => Some(Operation::SwapW3),
        30 => Some(Operation::SwapDW),
        31 => Some(Operation::Emit),
        33 => Some(Operation::Eq),
        34 => Some(Operation::Add),
        35 => Some(Operation::Mul),
        36 => Some(Operation::And),
        37 => Some(Operation::Or),
        38 => Some(Operation::U32and),
        39 => Some(Operation::U32xor),
        40 => Some(Operation::FriE2F4),
        41 => Some(Operation::Drop),
        42 => Some(Operation::CSwap),
        43 => Some(Operation::CSwapW),
        44 => Some(Operation::MLoadW),
        45 => Some(Operation::MStore),
        46 => Some(Operation::MStoreW),
        48 => Some(Operation::Pad),
        49 => Some(Operation::Dup0),
        50 => Some(Operation::Dup1),
        51 => Some(Operation::Dup2),
        52 => Some(Operation::Dup3),
        53 => Some(Operation::Dup4),
        54 => Some(Operation::Dup5),
        55 => Some(Operation::Dup6),
        56 => Some(Operation::Dup7),
        57 => Some(Operation::Dup9),
        58 => Some(Operation::Dup11),
        59 => Some(Operation::Dup13),
        60 => Some(Operation::Dup15),
        61 => Some(Operation::AdvPop),
        62 => Some(Operation::SDepth),
        63 => Some(Operation::Clk),
        64 => Some(Operation::U32add),
        66 => Some(Operation::U32sub),
        68 => Some(Operation::U32mul),
        70 => Some(Operation::U32div),
        72 => Some(Operation::U32split),
        76 => Some(Operation::U32add3),
        78 => Some(Operation::U32madd),
        80 => Some(Operation::HPerm),
        82 => Some(Operation::Pipe),
        83 => Some(Operation::MStream),
        89 => Some(Operation::HornerExt),
        90 => Some(Operation::HornerBase),
        93 => Some(Operation::EvalCircuit),
        94 => Some(Operation::LogDeferred),
        96 => Some(Operation::MrUpdate),
        100 => Some(Operation::CryptoStream),
        _ => None,
    }
}

fn decode_plain(code: u8) -> (op: Option<Operation>)
    ensures
        op == plain_operation(code),
{
    proof {
        reveal(plain_operation);
    }
    match code {
        0 => Some(Operation::Noop),
        1 => Some(Operation::Eqz),
        2 => Some(Operation::Neg),
        3 => Some(Operation::Inv),
        4 => Some(Operation::Incr),
        5 => Some(Operation::Not),
        7 => Some(Operation::MLoad),
        8 => Some(Operation::Swap),
        9 => Some(Operation::Caller),
        10 => Some(Operation::MovUp2),
        11 => Some(Operation::MovDn2),
        12 => Some(Operation::MovUp3),
        13 => Some(Operation::MovDn3),
        14 => Some(Operation::AdvPopW),
        15 => Some(Operation::Expacc),
        16 => Some(Operation::MovUp4),
        17 => Some(Operation::MovDn4),
        18 => Some(Operation::MovUp5),
        19 => Some(Operation::MovDn5),
        20 => Some(Operation::MovUp6),
        21 => Some(Operation::MovDn6),
        22 => Some(Operation::MovUp7),
        23 => Some(Operation::MovDn7),
        24 => Some(Operation::SwapW),
        25 => Some(Operation::Ext2Mul),
        26 => Some(Operation::MovUp8),
        27 => Some(Operation::MovDn8),
        28 => Some(Operation::SwapW2),
        29 => Some(Operation::SwapW3),
        30 => Some(Operation::SwapDW),
        31 => Some(Operation::Emit),
        33 => Some(Operation::Eq),
        34 => Some(Operation::Add),
        35 => Some(Operation::Mul),
        36 => Some(Operation::And),
        37 => Some(Operation::Or),
        38 => Some(Operation::U32and),
        39 => Some(Operation::U32xor),
        40 => Some(Operation::FriE2F4),
        41 => Some(Operation::Drop),
        42 => Some(Operation::CSwap),
        43 => Some(Operation::CSwapW),
        44 => Some(Operation::MLoadW),
        45 => Some(Operation::MStore),
        46 => Some(Operation::MStoreW),
        48 => Some(Operation::Pad),
        49 => Some(Operation::Dup0),
        50 => Some(Operation::Dup1),
        51 => Some(Operation::Dup2),
        52 => Some(Operation::Dup3),
        53 => Some(Operation::Dup4),
        54 => Some(Operation::Dup5),
        55 => Some(Operation::Dup6),
        56 => Some(Operation::Dup7),
        57 => Some(Operation::Dup9),
        58 => Some(Operation::Dup11),
        59 => Some(Operation::Dup13),
        60 => Some(Operation::Dup15),
        61 => Some(Operation::AdvPop),
        62 => Some(Operation::SDepth),
        63 => Some(Operation::Clk),
        64 => Some(Operation::U32add),
        66 => Some(Operation::U32sub),
        68 => Some(Operation::U32mul),
        70 => Some(Operation::U32div),
        72 => Some(Operation::U32split),
        76 => Some(Operation::U32add3),
        78 => Some(Operation::U32madd),
        80 => Some(Operation::HPerm),
        82 => Some(Operation::Pipe),
        83 => Some(Operation::MStream),
        89 => Some(Operation::HornerExt),
        90 => Some(Operation::HornerBase),
        93 => Some(Operation::EvalCircuit),
        94 => Some(Operation::LogDeferred),
        96 => Some(Operation::MrUpdate),
        100 => Some(Operation::CryptoStream),
        _ => None,
    }
}

/// A field element in eight bytes at offset `at`.
pub open spec fn felt_at(bytes: Seq<u8>, at: nat) -> Result<Felt, DeserializationError> {
    match slice_at(bytes, at, 8) {
        Err(e) => Err(e),
        Ok(s) => {
            let value = le_value(s) as u64;
            if value < MODULUS {
                Ok(Felt { value })
            } else {
                Err(DeserializationError::InvalidValue(InvalidValue::InvalidFelt { value }))
            }
        },
    }
}

/// The operation at offset `at`, and how many bytes it occupies.
#[verifier::opaque]
pub open spec fn operation_at(bytes: Seq<u8>, at: nat) -> Result<
    (Operation, nat),
    DeserializationError,
> {
    match slice_at(bytes, at, 1) {
        Err(e) => Err(e),
        Ok(s) => {
            let code = s[0];
            if code == 32 || code == 74 || code == 81 {
                match felt_at(bytes, at + 1) {
                    Err(e) => Err(e),
                    Ok(felt) => Ok(
                        (
                            if code == 32 {
                                Operation::Assert(felt)
                            } else if code == 74 {
                                Operation::U32assert2(felt)
                            } else {
                                Operation::MpVerify(felt)
                            },
                            9,
                        ),
                    ),
                }
            } else if code == 91 {
                match integer_at(bytes, at + 1) {
                    Err(e) => Err(e),
                    Ok((value, len)) => if value < MODULUS {
                        Ok((Operation::Push(Felt { value: value as u64 }), 1 + len))
                    } else {
                        Err(
                            DeserializationError::InvalidValue(
                                InvalidValue::InvalidFelt { value: value as u64 },
                            ),
                        )
                    },
                }
            } else {
                match plain_operation(code) {
                    Some(op) => Ok((op, 1)),
                    None => Err(
                        DeserializationError::InvalidValue(InvalidValue::UnknownOpcode { code }),
                    ),
                }
            }
        },
    }
}

/// Reads a field element and moves the offset behind it.
pub fn read_felt_at(bytes: &[u8], offset: &mut usize) -> (res: Result<Felt, DeserializationError>)
    ensures
        match felt_at(bytes@, *old(offset) as nat) {
            Ok(felt) => res == Ok::<Felt, DeserializationError>(felt) && *final(offset) == *old(
                offset,
            ) + 8 && *final(offset) <= bytes.len(),
            Err(e) => res == Err::<Felt, DeserializationError>(e),
        },
{
    match read_slice_at(bytes, offset, 8) {
        Err(e) => Err(e),
        Ok(s) => {
            let value: u64 = le_integer(s);
            if value < MODULUS {
                Ok(Felt { value })
            } else {
                Err(DeserializationError::InvalidValue(InvalidValue::InvalidFelt { value }))
            }
        },
    }
}

/// Reads an operation and moves the offset behind it.
pub fn read_operation_at(bytes: &[u8], offset: &mut usize) -> (res: Result<
    Operation,
    DeserializationError,
>)
    ensures
        match operation_at(bytes@, *old(offset) as nat) {
            Ok((op, len)) => res == Ok::<Operation, DeserializationError>(op) && *final(offset)
                == *old(offset) + len && *final(offset) <= bytes.len() && op.wf(),
            Err(e) => res == Err::<Operation, DeserializationError>(e),
        },
{
    proof {
        reveal(operation_at);
        reveal(plain_operation);
    }
    let code: u8 = match read_u8_at(bytes, offset) {
        Ok(code) => code,
        Err(e) => {
            return Err(e);
        },
    };
    if code == 32 || code == 74 || code == 81 {
        match read_felt_at(bytes, offset) {
            Err(e) => Err(e),
            Ok(felt) => if code == 32 {
                Ok(Operation::Assert(felt))
            } else if code == 74 {
                Ok(Operation::U32assert2(felt))
            } else {
                Ok(Operation::MpVerify(felt))
            },
        }
    } else if code == 91 {
        match read_integer_at(bytes, offset) {
            Err(e) => Err(e),
            Ok(value) => if value < MODULUS {
                Ok(Operation::Push(Felt { value }))
            } else {
                Err(DeserializationError::InvalidValue(InvalidValue::InvalidFelt { value }))
            },
        }
    } else {
        match decode_plain(code) {
            Some(op) => Ok(op),
            None => Err(DeserializationError::InvalidValue(InvalidValue::UnknownOpcode { code })),
        }
    }
}

/// A field element that was written at an offset is read there.
pub proof fn lemma_felt_round_trip(bytes: Seq<u8>, at: nat, felt: Felt)
    requires
        felt.wf(),
        bytes.len() <= usize::MAX,
        holds_at(bytes, at as int, le_bytes(felt.value as nat, 8)),
    ensures
        felt_at(bytes, at) == Ok::<Felt, DeserializationError>(felt),
{
    lemma_le_bytes_len(felt.value as nat, 8);
    lemma_pow256_values();
    law_le_round_trip(felt.value as nat, 8);
}

/// An operation that was written at an offset is read there.
pub proof fn law_operation_round_trip(bytes: Seq<u8>, at: nat, op: Operation)
    requires
        op.wf(),
        bytes.len() <= usize::MAX,
        holds_at(bytes, at as int, op.bytes()),
    ensures
        operation_at(bytes, at) == Ok::<(Operation, nat), DeserializationError>(
            (op, op.bytes().len()),
        ),
{
    reveal(operation_at);
    reveal(Operation::bytes);
    lemma_operand_codes(op);
    let head = seq![op.code()];
    let tail = op.bytes().skip(1);
    assert(op.bytes() =~= head + tail);
    lemma_holds_at_split(bytes, at as int, head, tail);
    assert(bytes.subrange(at as int, (at + 1) as int)[0] == op.code());
    if let Some(v) = op.immediate() {
        assert(tail =~= count_bytes(v.value as nat));
        law_count_round_trip(bytes, at + 1, v.value as nat);
        lemma_count_bytes_len(v.value as nat);
    }
    if let Some(e) = op.error_code_spec() {
        assert(tail =~= le_bytes(e.value as nat, 8));
        lemma_felt_round_trip(bytes, at + 1, e);
        lemma_le_bytes_len(e.value as nat, 8);
    }
    lemma_plain_round_trip(op);
}

proof fn lemma_plain_round_trip(op: Operation)
    ensures
        op.immediate() is None && op.error_code_spec() is None ==> plain_operation(op.code())
            == Some(op) && op.code() != 32 && op.code() != 74 && op.code() != 81 && op.code() != 91,
{
    reveal(Operation::code);
    reveal(plain_operation);
}

proof fn lemma_operand_codes(op: Operation)
    ensures
        op is Assert ==> op.code() == 32,
        op is U32assert2 ==> op.code() == 74,
        op is MpVerify ==> op.code() == 81,
        op is Push ==> op.code() == 91,
{
    reveal(Operation::code);
}

/// Operation codes fit in seven bits, and an operation occupies at least one byte.
pub proof fn lemma_code_bound(op: Operation)
    ensures
        op.code() < 128,
        op.bytes().len() >= 1,
{
    reveal(Operation::code);
    reveal(Operation::bytes);
}

} // verus!
