//! Native numbers and operators, as number nodes hold them.
//!
//! The word of a number node has three parts: its low four bits say what the word
//! is (an operator symbol, a number of one of the three types, or an operator that
//! is partially applied), the next 24 bits are its payload, and bit 28 says whether the
//! operands of the operation are flipped.
use vstd::prelude::*;

verus! {

/// The type of a native number.
#[derive(Debug, Clone, Copy, PartialEq, Eq, Structural)]
pub enum NumType {
    U24,
    I24,
    F24,
}

/// A native operator.
#[derive(Debug, Clone, Copy, PartialEq, Eq, Structural)]
pub enum Op {
    ADD,
    SUB,
    MUL,
    DIV,
    REM,
    EQL,
    NEQ,
    LTN,
    GTN,
    AND,
    OR,
    XOR,
    ATN,
    LOG,
    POW,
}

/// A native number: the tag of its type in the low four bits, its payload in the 24 bits
/// above them.
#[derive(Debug, Clone, Copy, PartialEq, Eq, Structural)]
pub struct Num {
    pub bits: u32,
}

impl NumType {
    /// The tag of the type in a native word.
    pub open spec fn tag(self) -> int {
        match self {
            NumType::U24 => 1,
            NumType::I24 => 2,
            NumType::F24 => 3,
        }
    }

    /// The type with the given tag.
    pub fn from_native_tag(value: u32) -> (typ: NumType)
        requires
            1 <= value <= 3,
        ensures
            typ.tag() == value,
    {
        if value == 1 {
            NumType::U24
        } else if value == 2 {
            NumType::I24
        } else {
            NumType::F24
        }
    }

    /// The tag of the type.
    pub fn native_tag(self) -> (value: u32)
        ensures
            value == self.tag(),
    {
        match self {
            NumType::U24 => 1,
            NumType::I24 => 2,
            NumType::F24 => 3,
        }
    }
}

/// The operator that a tag stands for on operands of a type. The last three tags stand for
/// bitwise operators on integers, and for transcendental ones on floats.
pub open spec fn native_op(tag: int, typ: NumType) -> Option<Op> {
    if tag == 4 {
        Some(Op::ADD)
    } else if tag == 5 {
        Some(Op::SUB)
    } else if tag == 6 {
        Some(Op::MUL)
    } else if tag == 7 {
        Some(Op::DIV)
    } else if tag == 8 {
        Some(Op::REM)
    } else if tag == 9 {
        Some(Op::EQL)
    } else if tag == 10 {
        Some(Op::NEQ)
    } else if tag == 11 {
        Some(Op::LTN)
    } else if tag == 12 {
        Some(Op::GTN)
    } else if tag == 13 {
        Some(if typ is F24 { Op::ATN } else { Op::AND })
    } else if tag == 14 {
        Some(if typ is F24 { Op::LOG } else { Op::OR })
    } else if tag == 15 {
        Some(if typ is F24 { Op::POW } else { Op::XOR })
    } else {
        None
    }
}

impl Op {
    /// The operator that a tag stands for on operands of a type.
    pub fn from_native_tag(val: u32, typ: NumType) -> (op: Op)
        requires
            4 <= val <= 15,
        ensures
            native_op(val as int, typ) == Some(op),
    {
        match val {
            0x4 => Op::ADD,
            0x5 => Op::SUB,
            0x6 => Op::MUL,
            0x7 => Op::DIV,
            0x8 => Op::REM,
            0x9 => Op::EQL,
            0xa => Op::NEQ,
            0xb => Op::LTN,
            0xc => Op::GTN,
            0xd => {
                if typ == NumType::F24 {
                    Op::ATN
                } else {
                    Op::AND
                }
            },
            0xe => {
                if typ == NumType::F24 {
                    Op::LOG
                } else {
                    Op::OR
                }
            },
            _ => {
                if typ == NumType::F24 {
                    Op::POW
                } else {
                    Op::XOR
                }
            },
        }
    }
}

/// The number of the given type that has the low 24 bits of `bits` as its payload.
pub open spec fn num_of(bits: int, typ: NumType) -> Num {
    Num { bits: ((bits % 0x100_0000) * 16 + typ.tag()) as u32 }
}

/// The low four bits of a native word.
pub open spec fn word_tag(word: u32) -> int {
    word as int % 16
}

/// The payload of a native word.
pub open spec fn word_payload(word: u32) -> int {
    (word as int / 16) % 0x100_0000
}

/// Whether the operands of the operation are flipped.
pub open spec fn word_flipped(word: u32) -> bool {
    (word as int / 0x1000_0000) % 2 == 1
}

/// The type with the given tag; of other tags nothing is meant.
pub open spec fn type_of(tag: int) -> NumType {
    if tag == 1 {
        NumType::U24
    } else if tag == 2 {
        NumType::I24
    } else {
        NumType::F24
    }
}

impl Num {
    /// The number with the given native word.
    pub fn from_bits(bits: u32) -> (num: Num)
        ensures
            num.bits == bits,
    {
        Num { bits }
    }

    /// The number of the given type that has the low 24 bits of `bits` as its payload.
    pub fn from_bits_and_type(bits: u32, typ: NumType) -> (num: Num)
        ensures
            num == num_of(bits as int, typ),
    {
        let tag = typ.native_tag();
        assert((bits & 0x00ff_ffff) << 4 | tag == (bits % 0x100_0000) * 16 + tag) by (bit_vector)
            requires
                tag < 16,
        ;
        Num::from_bits((bits & 0x00ff_ffff) << 4 | tag)
    }
}

/// Splits a native word into whether it is flipped, its tag and its payload.
pub fn split_word(word: u32) -> (parts: (bool, u32, u32))
    ensures
        parts.0 == word_flipped(word),
        parts.1 == word_tag(word),
        parts.2 == word_payload(word),
{
    assert((word >> 28) & 0x1 == (word / 0x1000_0000) % 2) by (bit_vector);
    assert(word & 0xf == word % 16) by (bit_vector);
    assert((word >> 4) & 0x00ff_ffff == (word / 16) % 0x100_0000) by (bit_vector);
    (((word >> 28) & 0x1) != 0, word & 0xf, (word >> 4) & 0x00ff_ffff)
}

/// A number gives back the type and the payload that it was made of.
pub proof fn law_num_keeps_its_parts(bits: u32, typ: NumType)
    ensures
        type_of(word_tag(num_of(bits as int, typ).bits)) == typ,
        word_tag(num_of(bits as int, typ).bits) == typ.tag(),
        word_payload(num_of(bits as int, typ).bits) == bits as int % 0x100_0000,
        !word_flipped(num_of(bits as int, typ).bits),
{
}

/// The number that a number node holds is its word without the bits above the payload.
pub proof fn law_num_of_word(word: u32)
    requires
        1 <= word_tag(word) <= 3,
    ensures
        num_of(word_payload(word), type_of(word_tag(word))).bits == word as int % 0x1000_0000,
{
}

/// The operators by their tags. Those on integers are the same for both types of them; floats have
/// others for the last three tags. No other tag stands for an operator.
pub proof fn law_operators(tag: int, typ: NumType)
    ensures
        native_op(tag, typ) is Some <==> 4 <= tag <= 15,
        native_op(4, typ) == Some(Op::ADD),
        native_op(5, typ) == Some(Op::SUB),
        native_op(6, typ) == Some(Op::MUL),
        native_op(7, typ) == Some(Op::DIV),
        native_op(8, typ) == Some(Op::REM),
        native_op(9, typ) == Some(Op::EQL),
        native_op(10, typ) == Some(Op::NEQ),
        native_op(11, typ) == Some(Op::LTN),
        native_op(12, typ) == Some(Op::GTN),
        !(typ is F24) ==> native_op(13, typ) == Some(Op::AND),
        !(typ is F24) ==> native_op(14, typ) == Some(Op::OR),
        !(typ is F24) ==> native_op(15, typ) == Some(Op::XOR),
        typ is F24 ==> native_op(13, typ) == Some(Op::ATN),
        typ is F24 ==> native_op(14, typ) == Some(Op::LOG),
        typ is F24 ==> native_op(15, typ) == Some(Op::POW),
{
}

/// The tags of the types of numbers.
pub proof fn law_types(typ: NumType)
    ensures
        NumType::U24.tag() == 1,
        NumType::I24.tag() == 2,
        NumType::F24.tag() == 3,
        type_of(typ.tag()) == typ,
{
}

} // verus!
