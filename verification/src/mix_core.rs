//! The instruction engine: effective-address resolution, bounds-checked
//! memory access, opcode dispatch, and the arithmetic instruction family.
//!
//! Every failure an instruction can hit is reported as a recoverable
//! [`EngineError`]; the machine state is never left half-written: a handler
//! either commits its whole effect or returns before mutating anything.

use vstd::prelude::*;

verus! {

use vstd::arithmetic::div_mod::{lemma_fundamental_div_mod, lemma_mod_bound};
use crate::mix_types::{MixAddr, MixByte, MixRegisters, MixState, MixWord, MIX_ADDR_MAX,
    MIX_ADDR_MIN, MIX_MEMORY_ADDR_MAX, MIX_MEMORY_ADDR_MIN, MIX_WORD_MAX, MIX_WORD_MIN};
use crate::mix_util::{addr_encode, addr_val, dword_encode, dword_mag, field_spec_valid,
    from_mix_addr, from_mix_word, get_bytes, get_field_word, lemma_pow64_vals, spec_field_word,
    spec_get_bytes, to_mix_addr, to_mix_dword, to_mix_word, word_encode, word_is_neg, word_mag,
    word_val};

/// Everything that can go wrong while executing one instruction. All of
/// these are recoverable: the driver decides whether to report, continue or
/// halt.
#[derive(Clone, Copy, Debug, PartialEq, Eq, Structural)]
pub enum EngineError {
    /// Effective-address computation produced a magnitude that exceeds 12
    /// bits.
    AddressOverflow,
    /// A resolved address falls outside memory.
    MemoryOutOfBounds,
    /// The decoded operation code has no defined handler. Structurally
    /// unreachable with a 6-bit opcode field, handled defensively.
    BadOpcode,
    /// A field specification decodes to `(L, R)` with `L > R` or `R > 5`.
    BadFieldSpecification,
    /// The instruction's index byte names a register beyond the six index
    /// registers.
    BadIndexRegister,
    /// The opcode belongs to a family that is an extension point: reachable
    /// through dispatch, but without semantics yet.
    NotImplemented,
}

/// What resolving the address field of `instr` against the registers
/// yields: the base address itself for index 0, otherwise the re-encoded
/// signed sum of base address and index register.
pub open spec fn spec_effective_address(instr: MixWord, r: MixRegisters) -> Result<
    MixAddr,
    EngineError,
> {
    let base = spec_get_bytes(instr, 0, 2) as MixAddr;
    let idx = spec_get_bytes(instr, 3, 3);
    if idx == 0 {
        Ok(base)
    } else if idx > 6 {
        Err(EngineError::BadIndexRegister)
    } else {
        let sum = addr_val(base) + addr_val(r.i@[idx - 1]);
        if sum > MIX_ADDR_MAX || sum < MIX_ADDR_MIN {
            Err(EngineError::AddressOverflow)
        } else {
            Ok(addr_encode(sum))
        }
    }
}

/// Pull the address field out of an instruction and apply the index
/// register it names, detecting overflow of the 12-bit magnitude instead of
/// truncating it.
pub fn effective_address(instr: MixWord, r: &MixRegisters) -> (res: Result<MixAddr, EngineError>)
    ensures
        res == spec_effective_address(instr, *r),
{
    proof {
        lemma_pow64_vals();
    }
    let base = get_bytes(instr, 0, 2) as u16;
    let i = get_bytes(instr, 3, 3);
    if i == 0 {
        Ok(base)
    } else if i > 6 {
        Err(EngineError::BadIndexRegister)
    } else {
        let reg = r.i[(i - 1) as usize];
        let new_addr = from_mix_addr(base) + from_mix_addr(reg);
        if new_addr > MIX_ADDR_MAX || new_addr < MIX_ADDR_MIN {
            Err(EngineError::AddressOverflow)
        } else {
            Ok(to_mix_addr(new_addr))
        }
    }
}

/// What reading memory at `m` under field specification `f` yields: the
/// field-masked word, or the error for an out-of-range address or an
/// invalid field specification.
pub open spec fn spec_memory_get(m: MixAddr, f: MixByte, s: MixState) -> Result<
    MixWord,
    EngineError,
> {
    let a = addr_val(m);
    if a < MIX_MEMORY_ADDR_MIN || a > MIX_MEMORY_ADDR_MAX {
        Err(EngineError::MemoryOutOfBounds)
    } else if !field_spec_valid(f) {
        Err(EngineError::BadFieldSpecification)
    } else {
        Ok(spec_field_word(s.memory@[a], f) as MixWord)
    }
}

/// Look up the word at an address and apply the field specification. Every
/// operand read of every opcode handler goes through here, so bounds
/// checking is centralized and uniform.
pub fn memory_get(m: MixAddr, f: MixByte, st: &MixState) -> (res: Result<MixWord, EngineError>)
    requires
        st.wf(),
    ensures
        res == spec_memory_get(m, f, *st),
{
    let a = from_mix_addr(m);
    if a < MIX_MEMORY_ADDR_MIN || a > MIX_MEMORY_ADDR_MAX {
        return Err(EngineError::MemoryOutOfBounds);
    }
    if f / 8 > f % 8 || f % 8 > 5 {
        return Err(EngineError::BadFieldSpecification);
    }
    let w = st.memory[a as usize];
    Ok(get_field_word(w, f))
}

/// The sign bit of a word, alone in its own position.
pub open spec fn word_sign_bit(w: MixWord) -> MixWord {
    if word_is_neg(w) {
        0x4000_0000u32
    } else {
        0u32
    }
}

/// How one arithmetic opcode (`c` in 1..=4) transforms the machine state,
/// given the operand word `v`:
///
/// - ADD and SUB write the truncated sum or difference to `A` and set the
///   sticky overflow flag when the exact result exceeds one word;
/// - MUL writes the exact double-word product to `(A, X)`;
/// - DIV writes quotient to `A` and remainder (with the dividend's original
///   sign) to `X`, or only sets overflow — leaving `A` and `X` unspecified —
///   on a zero divisor or a quotient too large for one word.
pub open spec fn spec_arith_post(c: MixByte, v: MixWord, pre: MixState, post: MixState) -> bool
    recommends
        1 <= c <= 4,
{
    &&& post.memory@ == pre.memory@
    &&& post.comparison == pre.comparison
    &&& post.r.i == pre.r.i
    &&& post.r.j == pre.r.j
    &&& if c == 1 {
        let sum = word_val(v) + word_val(pre.r.a);
        &&& post.r.a == word_encode(sum)
        &&& post.r.x == pre.r.x
        &&& post.overflow == (pre.overflow || sum > MIX_WORD_MAX || sum < MIX_WORD_MIN)
    } else if c == 2 {
        let dif = word_val(v) - word_val(pre.r.a);
        &&& post.r.a == word_encode(dif)
        &&& post.r.x == pre.r.x
        &&& post.overflow == (pre.overflow || dif > MIX_WORD_MAX || dif < MIX_WORD_MIN)
    } else if c == 3 {
        let prod = word_val(v) * word_val(pre.r.a);
        &&& post.r.a == dword_encode(prod).0
        &&& post.r.x == dword_encode(prod).1
        &&& post.overflow == pre.overflow
    } else {
        let vm = word_mag(v);
        let am = word_mag(pre.r.a);
        if vm == 0 || am >= vm {
            post.overflow == true
        } else {
            let dm = dword_mag(pre.r.a, pre.r.x);
            let qm = dm / vm;
            let rm = dm % vm;
            let qneg = word_is_neg(pre.r.a) != word_is_neg(v);
            &&& post.r.a == word_encode(
                if qneg {
                    -qm
                } else {
                    qm
                },
            )
            &&& post.r.x == (word_sign_bit(pre.r.a) + rm) as MixWord
            &&& post.overflow == pre.overflow
        }
    }
}

/// Execute one arithmetic opcode (ADD, SUB, MUL or DIV) on the operand read
/// from memory at `m` under field specification `f`.
pub fn do_arithmetic(c: MixByte, f: MixByte, m: MixAddr, st: &mut MixState) -> (res: Result<
    (),
    EngineError,
>)
    requires
        1 <= c <= 4,
        old(st).wf(),
    ensures
        final(st).wf(),
        final(st).pc == old(st).pc,
        match spec_memory_get(m, f, *old(st)) {
            Err(e) => res == Err::<(), EngineError>(e) && *final(st) == *old(st),
            Ok(v) => res == Ok::<(), EngineError>(()) && spec_arith_post(c, v, *old(st), *final(st)),
        },
{
    let v = match memory_get(m, f, st) {
        Ok(w) => w,
        Err(e) => {
            return Err(e);
        },
    };
    if c == 1 {
        let new_val = from_mix_word(v) + from_mix_word(st.r.a);
        if new_val < MIX_WORD_MIN || new_val > MIX_WORD_MAX {
            st.overflow = true;
        }
        st.r.a = to_mix_word(new_val);
        Ok(())
    } else if c == 2 {
        let new_val = from_mix_word(v) - from_mix_word(st.r.a);
        if new_val < MIX_WORD_MIN || new_val > MIX_WORD_MAX {
            st.overflow = true;
        }
        st.r.a = to_mix_word(new_val);
        Ok(())
    } else if c == 3 {
        let lhs = from_mix_word(v);
        let rhs = from_mix_word(st.r.a);
        proof {
            assert((lhs as int) * (rhs as int) <= 0x3FFF_FFFF * 0x3FFF_FFFFint && (lhs as int) * (
            rhs as int) >= -(0x3FFF_FFFF * 0x3FFF_FFFFint)) by (nonlinear_arith)
                requires
                    -0x3FFF_FFFF <= lhs as int <= 0x3FFF_FFFF,
                    -0x3FFF_FFFF <= rhs as int <= 0x3FFF_FFFF,
            ;
        }
        let new_val = (lhs as i64) * (rhs as i64);
        let (hi, lo) = to_mix_dword(new_val);
        st.r.a = hi;
        st.r.x = lo;
        Ok(())
    } else {
        proof {
            lemma_pow64_vals();
        }
        let vm = get_bytes(v, 1, 5);
        let am = get_bytes(st.r.a, 1, 5);
        if vm == 0 || am >= vm {
            st.overflow = true;
            Ok(())
        } else {
            let xm = get_bytes(st.r.x, 1, 5);
            let dm: u64 = am as u64 * 0x4000_0000 + xm as u64;
            let q: u64 = dm / vm as u64;
            let rem: u64 = dm % vm as u64;
            proof {
                lemma_mod_bound(dm as int, vm as int);
                lemma_fundamental_div_mod(dm as int, vm as int);
                assert(q < 0x4000_0000) by (nonlinear_arith)
                    requires
                        vm as int >= 1,
                        am as int <= vm as int - 1,
                        xm as int <= 0x3FFF_FFFF,
                        dm as int == am as int * 0x4000_0000 + xm as int,
                        dm as int == vm as int * (q as int) + rem as int,
                        rem as int >= 0,
                ;
            }
            let a_neg = (st.r.a / 0x4000_0000) % 2 == 1;
            let v_neg = (v / 0x4000_0000) % 2 == 1;
            let qneg = a_neg != v_neg;
            let qi: i32 = if qneg {
                -(q as i32)
            } else {
                q as i32
            };
            let sign_bit: u32 = if a_neg {
                0x4000_0000
            } else {
                0
            };
            st.r.a = to_mix_word(qi);
            st.r.x = sign_bit + rem as u32;
            Ok(())
        }
    }
}

/// Extension point for the special operators (NUM, CHAR, HLT): reachable
/// through dispatch, semantics not implemented yet. Leaves the state
/// unchanged.
pub fn do_special(_c: MixByte, _f: MixByte, _m: MixAddr, st: &mut MixState) -> (res: Result<
    (),
    EngineError,
>)
    ensures
        res == Err::<(), EngineError>(EngineError::NotImplemented),
        *final(st) == *old(st),
{
    Err(EngineError::NotImplemented)
}

/// Extension point for the shift operators (SLA, SRA, SLAX, SRAX, SLC,
/// SRC): not implemented yet. Leaves the state unchanged.
pub fn do_shift(_c: MixByte, _f: MixByte, _m: MixAddr, st: &mut MixState) -> (res: Result<
    (),
    EngineError,
>)
    ensures
        res == Err::<(), EngineError>(EngineError::NotImplemented),
        *final(st) == *old(st),
{
    Err(EngineError::NotImplemented)
}

/// Extension point for MOVE: not implemented yet. Leaves the state
/// unchanged.
pub fn do_move(_c: MixByte, _f: MixByte, _m: MixAddr, st: &mut MixState) -> (res: Result<
    (),
    EngineError,
>)
    ensures
        res == Err::<(), EngineError>(EngineError::NotImplemented),
        *final(st) == *old(st),
{
    Err(EngineError::NotImplemented)
}

/// Extension point for the load operators: not implemented yet. Leaves the
/// state unchanged.
pub fn do_load(_c: MixByte, _f: MixByte, _m: MixAddr, st: &mut MixState) -> (res: Result<
    (),
    EngineError,
>)
    ensures
        res == Err::<(), EngineError>(EngineError::NotImplemented),
        *final(st) == *old(st),
{
    Err(EngineError::NotImplemented)
}

/// Extension point for the store operators: not implemented yet. Leaves the
/// state unchanged.
pub fn do_store(_c: MixByte, _f: MixByte, _m: MixAddr, st: &mut MixState) -> (res: Result<
    (),
    EngineError,
>)
    ensures
        res == Err::<(), EngineError>(EngineError::NotImplemented),
        *final(st) == *old(st),
{
    Err(EngineError::NotImplemented)
}

/// Extension point for the input-output operators (JBUS, IOC, IN, OUT,
/// JRED): not implemented yet. Leaves the state unchanged.
pub fn do_io(_c: MixByte, _f: MixByte, _m: MixAddr, st: &mut MixState) -> (res: Result<
    (),
    EngineError,
>)
    ensures
        res == Err::<(), EngineError>(EngineError::NotImplemented),
        *final(st) == *old(st),
{
    Err(EngineError::NotImplemented)
}

/// Extension point for the jump operators: not implemented yet. Leaves the
/// state unchanged.
pub fn do_jump(_c: MixByte, _f: MixByte, _m: MixAddr, st: &mut MixState) -> (res: Result<
    (),
    EngineError,
>)
    ensures
        res == Err::<(), EngineError>(EngineError::NotImplemented),
        *final(st) == *old(st),
{
    Err(EngineError::NotImplemented)
}

/// Extension point for the address-transfer operators: not implemented
/// yet. Leaves the state unchanged.
pub fn do_address_transfer(_c: MixByte, _f: MixByte, _m: MixAddr, st: &mut MixState) -> (res:
    Result<(), EngineError>)
    ensures
        res == Err::<(), EngineError>(EngineError::NotImplemented),
        *final(st) == *old(st),
{
    Err(EngineError::NotImplemented)
}

/// Extension point for the comparison operators: not implemented yet.
/// Leaves the state unchanged.
pub fn do_compare(_c: MixByte, _f: MixByte, _m: MixAddr, st: &mut MixState) -> (res: Result<
    (),
    EngineError,
>)
    ensures
        res == Err::<(), EngineError>(EngineError::NotImplemented),
        *final(st) == *old(st),
{
    Err(EngineError::NotImplemented)
}

/// The error executing `instr` against state `s` would report, if any:
/// first a failure of effective-address resolution, then — for the families
/// that read an operand — a failure of the memory read, then
/// `NotImplemented` for the extension-point families.
pub open spec fn spec_instr_error(instr: MixWord, s: MixState) -> Option<EngineError> {
    match spec_effective_address(instr, s.r) {
        Err(e) => Some(e),
        Ok(m) => {
            let c = spec_get_bytes(instr, 5, 5);
            let f = spec_get_bytes(instr, 4, 4) as MixByte;
            if c == 0 {
                None
            } else if 1 <= c <= 4 {
                match spec_memory_get(m, f, s) {
                    Err(e) => Some(e),
                    Ok(_) => None,
                }
            } else if c <= 63 {
                Some(EngineError::NotImplemented)
            } else {
                Some(EngineError::BadOpcode)
            }
        },
    }
}

/// Registers, flags and memory are untouched; says nothing of the program
/// counter.
pub open spec fn regs_flags_mem_unchanged(pre: MixState, post: MixState) -> bool {
    &&& post.r == pre.r
    &&& post.comparison == pre.comparison
    &&& post.overflow == pre.overflow
    &&& post.memory@ == pre.memory@
}

/// How executing `instr` without error transforms everything but the
/// program counter: a no-op for opcode 0, the arithmetic family's effect
/// for opcodes 1 to 4.
pub open spec fn spec_instr_effect(instr: MixWord, pre: MixState, post: MixState) -> bool
    recommends
        spec_instr_error(instr, pre) is None,
{
    let c = spec_get_bytes(instr, 5, 5);
    if c == 0 {
        regs_flags_mem_unchanged(pre, post)
    } else {
        match spec_effective_address(instr, pre.r) {
            Ok(m) => match spec_memory_get(m, spec_get_bytes(instr, 4, 4) as MixByte, pre) {
                Ok(v) => spec_arith_post(c as MixByte, v, pre, post),
                Err(_) => false,
            },
            Err(_) => false,
        }
    }
}

/// Decode one instruction word — field specification from byte 4, opcode
/// from byte 5, effective address from the address and index fields — and
/// dispatch it to its opcode family. Does not touch the program counter.
pub fn do_mix_instruction(instr: MixWord, st: &mut MixState) -> (res: Result<(), EngineError>)
    requires
        old(st).wf(),
    ensures
        final(st).wf(),
        final(st).pc == old(st).pc,
        match spec_instr_error(instr, *old(st)) {
            Some(e) => res == Err::<(), EngineError>(e) && *final(st) == *old(st),
            None => res == Ok::<(), EngineError>(()) && spec_instr_effect(instr, *old(st), *final(st)),
        },
{
    proof {
        lemma_pow64_vals();
    }
    let f = get_bytes(instr, 4, 4) as u8;
    let c = get_bytes(instr, 5, 5) as u8;
    let m = match effective_address(instr, &st.r) {
        Ok(m) => m,
        Err(e) => {
            return Err(e);
        },
    };
    if c == 0 {
        Ok(())
    } else if c <= 4 {
        do_arithmetic(c, f, m, st)
    } else if c == 5 {
        do_special(c, f, m, st)
    } else if c == 6 {
        do_shift(c, f, m, st)
    } else if c == 7 {
        do_move(c, f, m, st)
    } else if c <= 23 {
        do_load(c, f, m, st)
    } else if c <= 33 {
        do_store(c, f, m, st)
    } else if c <= 38 {
        do_io(c, f, m, st)
    } else if c <= 47 {
        do_jump(c, f, m, st)
    } else if c <= 55 {
        do_address_transfer(c, f, m, st)
    } else if c <= 63 {
        do_compare(c, f, m, st)
    } else {
        Err(EngineError::BadOpcode)
    }
}

/// The error one fetch-and-execute step from state `s` would report, if
/// any: a program counter outside memory, else whatever executing the
/// fetched instruction reports.
pub open spec fn spec_step_error(s: MixState) -> Option<EngineError> {
    if s.pc > MIX_MEMORY_ADDR_MAX {
        Some(EngineError::MemoryOutOfBounds)
    } else {
        spec_instr_error(s.memory@[s.pc as int], s)
    }
}

/// One error-free fetch-and-execute transition: `pre` reports no error,
/// the fetched instruction's effect carries `pre` to `post`, and the
/// program counter advances by one.
pub open spec fn spec_step_ok(pre: MixState, post: MixState) -> bool {
    &&& spec_step_error(pre) is None
    &&& post.pc == pre.pc + 1
    &&& spec_instr_effect(pre.memory@[pre.pc as int], pre, post)
}

/// `tr` is a run from `pre` to `post`: it starts at `pre`, ends at `post`,
/// and every adjacent pair of its states is one error-free
/// fetch-and-execute transition. A run of one state makes no transition.
pub open spec fn spec_run_trace(pre: MixState, post: MixState, tr: Seq<MixState>) -> bool {
    &&& tr.len() >= 1
    &&& tr[0] == pre
    &&& tr[tr.len() - 1] == post
    &&& forall|i: int| 0 <= i < tr.len() - 1 ==> spec_step_ok(tr[i], #[trigger] tr[i + 1])
}

/// Fetch the instruction at the program counter, execute it, and advance
/// the counter by one. On an error the state is left exactly as it was.
///
/// Law: a step that executes opcode 0 (no-op) leaves every register, every
/// flag and all of memory identical, and only advances the program counter;
/// the last `ensures` clause states this.
pub fn step(st: &mut MixState) -> (res: Result<(), EngineError>)
    requires
        old(st).wf(),
    ensures
        final(st).wf(),
        match spec_step_error(*old(st)) {
            Some(e) => res == Err::<(), EngineError>(e) && *final(st) == *old(st),
            None => res == Ok::<(), EngineError>(()) && spec_step_ok(*old(st), *final(st)),
        },
        (spec_step_error(*old(st)) is None && spec_get_bytes(
            old(st).memory@[old(st).pc as int],
            5,
            5,
        ) == 0) ==> (regs_flags_mem_unchanged(*old(st), *final(st)) && final(st).pc == old(st).pc + 1),
{
    if st.pc > 3999 {
        return Err(EngineError::MemoryOutOfBounds);
    }
    let instr = st.memory[st.pc as usize];
    match do_mix_instruction(instr, st) {
        Ok(()) => {
            st.pc = st.pc + 1;
            Ok(())
        },
        Err(e) => Err(e),
    }
}

/// Step repeatedly until something stops the machine. With the halt
/// operator an extension point, every run ends in the error of the step
/// that could not proceed.
///
/// Law: some trace of error-free fetch-and-execute transitions carries the
/// initial state to the final one, and the final state is one whose own
/// next step would report exactly the returned error.
pub fn run(st: &mut MixState) -> (r: EngineError)
    requires
        old(st).wf(),
    ensures
        final(st).wf(),
        final(st).pc >= old(st).pc,
        exists|tr: Seq<MixState>| spec_run_trace(*old(st), *final(st), tr),
        spec_step_error(*final(st)) == Some(r),
{
    let ghost mut trace: Seq<MixState> = seq![*old(st)];
    loop
        invariant
            st.wf(),
            st.pc >= old(st).pc,
            spec_run_trace(*old(st), *st, trace),
        decreases (if st.pc > 4000 {
            0int
        } else {
            4000 - st.pc as int
        }),
    {
        let ghost prev = *st;
        match step(st) {
            Ok(()) => {
                proof {
                    let grown = trace.push(*st);
                    assert forall|i: int| 0 <= i < grown.len() - 1 implies spec_step_ok(
                        grown[i],
                        #[trigger] grown[i + 1],
                    ) by {
                        if i < grown.len() - 2 {
                            assert(grown[i] == trace[i]);
                            assert(grown[i + 1] == trace[i + 1]);
                        } else {
                            assert(grown[i] == prev);
                            assert(grown[i + 1] == *st);
                        }
                    }
                    trace = grown;
                }
            },
            Err(e) => {
                proof {
                    assert(spec_run_trace(*old(st), *st, trace));
                }
                return e;
            },
        }
    }
}

} // verus!
