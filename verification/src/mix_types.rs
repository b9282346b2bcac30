//! The architectural data model: bytes, words, addresses, registers,
//! memory and processor flags of one emulated MIX machine.

use vstd::prelude::*;

verus! {

/// A MIX byte holds 64 distinct values (6 bits), stored in the low bits of a
/// `u8`. The top two bits of the container are unused.
pub type MixByte = u8;

/// A MIX word: five bytes and a sign, packed into a `u32`.
///
/// Layout, high to low:
/// one unused bit, the sign bit (1 for `-`, 0 for `+`), then the five 6-bit
/// byte fields in order byte1..byte5.
pub type MixWord = u32;

/// Two bytes and a sign, packed into a `u16`: the size of the index
/// registers, the jump register, and any computed memory address.
///
/// Layout, high to low: three unused bits, the sign bit, byte1, byte2.
pub type MixAddr = u16;

/// The largest value a MIX byte can hold.
pub const MIX_BYTE_MAX: u8 = 63;

/// Number of words of memory: valid addresses are 0..=3999.
pub const MEM_SIZE: usize = 4000;

/// Largest magnitude a word can hold: five 6-bit bytes, 2^30 - 1.
pub const MIX_WORD_MAX: i32 = 0x3FFF_FFFF;

/// Smallest value a word can hold.
pub const MIX_WORD_MIN: i32 = -0x3FFF_FFFF;

/// Largest magnitude an address can hold: two 6-bit bytes, 2^12 - 1.
pub const MIX_ADDR_MAX: i16 = 0xFFF;

/// Smallest value an address can hold.
pub const MIX_ADDR_MIN: i16 = -0xFFF;

/// Largest magnitude a double word can hold: ten 6-bit bytes, 2^60 - 1.
pub const MIX_DOUBLEWORD_MAX: i64 = 0xFFF_FFFF_FFFF_FFFF;

/// Smallest value a double word can hold.
pub const MIX_DOUBLEWORD_MIN: i64 = -0xFFF_FFFF_FFFF_FFFF;

/// Largest valid memory address magnitude.
pub const MIX_MEMORY_ADDR_MAX: i16 = 3999;

/// Smallest valid memory address magnitude.
pub const MIX_MEMORY_ADDR_MIN: i16 = 0;

/// The nine registers of MIX: accumulator, extension, six index registers,
/// and the jump register (which always behaves as though its sign is `+`).
#[derive(Clone, Copy, Debug)]
pub struct MixRegisters {
    pub a: MixWord,
    pub x: MixWord,
    pub i: [MixAddr; 6],
    pub j: MixAddr,
}

/// The comparison indicator, set by compare operations and read by
/// conditional jumps.
#[derive(Clone, Copy, Debug, PartialEq, Eq, Structural)]
pub enum MixCompare {
    Less,
    Equal,
    Greater,
}

/// One emulated machine instance: registers, memory, processor flags and the
/// program counter. Exactly one step of execution owns it at a time.
#[derive(Debug)]
pub struct MixState {
    pub r: MixRegisters,
    pub comparison: MixCompare,
    pub overflow: bool,
    pub memory: Vec<MixWord>,
    pub pc: u32,
}

impl MixState {
    /// A machine state is well formed when its memory holds exactly
    /// `MEM_SIZE` words.
    pub open spec fn wf(&self) -> bool {
        self.memory@.len() == MEM_SIZE
    }

    /// A machine with all registers, flags and memory cleared.
    pub fn new() -> (s: MixState)
        ensures
            s.wf(),
            s.r.a == 0u32,
            s.r.x == 0u32,
            s.r.i@ =~= seq![0u16, 0u16, 0u16, 0u16, 0u16, 0u16],
            s.r.j == 0u16,
            s.comparison == MixCompare::Equal,
            s.overflow == false,
            s.pc == 0u32,
            forall|k: int| 0 <= k < MEM_SIZE ==> s.memory@[k] == 0u32,
    {
        let mut memory: Vec<MixWord> = Vec::new();
        let mut n: usize = 0;
        while n < MEM_SIZE
            invariant
                n <= MEM_SIZE,
                memory@.len() == n,
                forall|k: int| 0 <= k < n ==> memory@[k] == 0u32,
            decreases MEM_SIZE - n,
        {
            memory.push(0);
            n = n + 1;
        }
        MixState {
            r: MixRegisters { a: 0, x: 0, i: [0, 0, 0, 0, 0, 0], j: 0 },
            comparison: MixCompare::Equal,
            overflow: false,
            memory,
            pc: 0,
        }
    }
}

} // verus!
