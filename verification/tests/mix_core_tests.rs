use knoxide::mix_core::{
    do_arithmetic, do_load, do_mix_instruction, effective_address, memory_get, run, step,
    EngineError,
};
use knoxide::mix_types::{MixCompare, MixState};
use knoxide::mix_util::{
    from_mix_dword, from_mix_word, to_mix_addr, to_mix_word, word_from_bytes,
};

/// An instruction word: signed base address, index byte, field byte, opcode.
fn instr(addr: i16, idx: u8, f: u8, c: u8) -> u32 {
    let a = to_mix_addr(addr);
    let sign = (a >> 12) as u8 & 1;
    let a1 = (a >> 6) as u8 & 63;
    let a2 = a as u8 & 63;
    word_from_bytes(sign, a1, a2, idx, f, c)
}

#[test]
fn effective_address_without_index_is_the_base() {
    let st = MixState::new();
    // Base address 66, index byte 0: the base comes back unmodified.
    assert_eq!(effective_address(instr(66, 0, 5, 8), &st.r), Ok(66));
    assert_eq!(effective_address(instr(-3, 0, 5, 8), &st.r), Ok(to_mix_addr(-3)));
}

#[test]
fn effective_address_applies_index_register() {
    let mut st = MixState::new();
    st.r.i[1] = to_mix_addr(-3);
    // Base 10 indexed by I2 = -3 gives 7.
    assert_eq!(effective_address(instr(10, 2, 5, 8), &st.r), Ok(to_mix_addr(7)));
    st.r.i[0] = to_mix_addr(20);
    assert_eq!(effective_address(instr(-5, 1, 5, 8), &st.r), Ok(to_mix_addr(15)));
}

#[test]
fn effective_address_overflow_is_detected() {
    let mut st = MixState::new();
    st.r.i[0] = to_mix_addr(1);
    assert_eq!(
        effective_address(instr(4095, 1, 5, 8), &st.r),
        Err(EngineError::AddressOverflow)
    );
    st.r.i[0] = to_mix_addr(-1);
    assert_eq!(
        effective_address(instr(-4095, 1, 5, 8), &st.r),
        Err(EngineError::AddressOverflow)
    );
    // The same sum stays representable when it cancels.
    st.r.i[0] = to_mix_addr(-4095);
    assert_eq!(effective_address(instr(4095, 1, 5, 8), &st.r), Ok(0));
}

#[test]
fn effective_address_rejects_bad_index_byte() {
    let st = MixState::new();
    assert_eq!(
        effective_address(instr(0, 7, 5, 8), &st.r),
        Err(EngineError::BadIndexRegister)
    );
}

#[test]
fn memory_bounds_are_checked() {
    let mut st = MixState::new();
    st.memory[3999] = to_mix_word(12);
    assert_eq!(memory_get(to_mix_addr(3999), 5, &st), Ok(to_mix_word(12)));
    assert_eq!(
        memory_get(to_mix_addr(4000), 5, &st),
        Err(EngineError::MemoryOutOfBounds)
    );
    assert_eq!(
        memory_get(to_mix_addr(-1), 5, &st),
        Err(EngineError::MemoryOutOfBounds)
    );
    // A field specification with L > R or R > 5 is refused.
    assert_eq!(
        memory_get(to_mix_addr(0), 7, &st),
        Err(EngineError::BadFieldSpecification)
    );
    assert_eq!(
        memory_get(to_mix_addr(0), 17, &st),
        Err(EngineError::BadFieldSpecification)
    );
}

#[test]
fn add_without_overflow() {
    let mut st = MixState::new();
    st.r.a = to_mix_word(10);
    st.memory[100] = to_mix_word(5);
    assert_eq!(do_arithmetic(1, 5, to_mix_addr(100), &mut st), Ok(()));
    assert_eq!(st.r.a, to_mix_word(15));
    assert!(!st.overflow);
}

#[test]
fn add_overflow_sets_flag_and_writes_wrapped_value() {
    let mut st = MixState::new();
    st.r.a = to_mix_word(0x3FFF_FFFF);
    st.memory[0] = to_mix_word(1);
    assert_eq!(do_arithmetic(1, 5, to_mix_addr(0), &mut st), Ok(()));
    assert!(st.overflow);
    // 2^30 truncated to 30 bits is zero.
    assert_eq!(st.r.a, to_mix_word(0));
}

#[test]
fn sub_subtracts_accumulator_from_operand() {
    let mut st = MixState::new();
    st.r.a = to_mix_word(10);
    st.memory[7] = to_mix_word(3);
    assert_eq!(do_arithmetic(2, 5, to_mix_addr(7), &mut st), Ok(()));
    assert_eq!(st.r.a, to_mix_word(-7));
    assert!(!st.overflow);
}

#[test]
fn mul_fills_both_registers() {
    let mut st = MixState::new();
    st.r.a = to_mix_word(800);
    st.memory[50] = to_mix_word(-5);
    assert_eq!(do_arithmetic(3, 5, to_mix_addr(50), &mut st), Ok(()));
    assert_eq!(from_mix_dword(st.r.a, st.r.x), -4000);
    assert!(!st.overflow);
}

#[test]
fn mul_of_large_magnitudes_never_overflows() {
    let mut st = MixState::new();
    st.r.a = to_mix_word(0x3FFF_FFFF);
    st.memory[0] = to_mix_word(-0x3FFF_FFFF);
    assert_eq!(do_arithmetic(3, 5, to_mix_addr(0), &mut st), Ok(()));
    assert_eq!(
        from_mix_dword(st.r.a, st.r.x),
        -(0x3FFF_FFFFi64 * 0x3FFF_FFFFi64)
    );
    assert!(!st.overflow);
}

#[test]
fn div_writes_quotient_and_remainder() {
    let mut st = MixState::new();
    // Dividend (A, X) decodes to 17, divisor 5.
    st.r.a = to_mix_word(0);
    st.r.x = to_mix_word(17);
    st.memory[9] = to_mix_word(5);
    assert_eq!(do_arithmetic(4, 5, to_mix_addr(9), &mut st), Ok(()));
    assert_eq!(st.r.a, to_mix_word(3));
    assert_eq!(st.r.x, to_mix_word(2));
    assert!(!st.overflow);
}

#[test]
fn div_remainder_carries_the_dividends_sign() {
    let mut st = MixState::new();
    // A negative dividend: -(17) over 5 gives quotient -3, remainder -2.
    st.r.a = 1 << 30; // negative zero: sign minus, magnitude zero
    st.r.x = to_mix_word(17);
    st.memory[9] = to_mix_word(5);
    assert_eq!(do_arithmetic(4, 5, to_mix_addr(9), &mut st), Ok(()));
    assert_eq!(st.r.a, to_mix_word(-3));
    assert_eq!(st.r.x, to_mix_word(-2));
    assert!(!st.overflow);
}

#[test]
fn div_by_zero_sets_overflow() {
    let mut st = MixState::new();
    st.r.a = to_mix_word(0);
    st.r.x = to_mix_word(17);
    st.memory[9] = to_mix_word(0);
    assert_eq!(do_arithmetic(4, 5, to_mix_addr(9), &mut st), Ok(()));
    assert!(st.overflow);
}

#[test]
fn div_quotient_overflow_sets_overflow() {
    let mut st = MixState::new();
    // |A| >= |divisor| would make the quotient exceed one word.
    st.r.a = to_mix_word(5);
    st.r.x = to_mix_word(0);
    st.memory[9] = to_mix_word(5);
    assert_eq!(do_arithmetic(4, 5, to_mix_addr(9), &mut st), Ok(()));
    assert!(st.overflow);
}

#[test]
fn step_on_no_op_only_advances_the_counter() {
    let mut st = MixState::new();
    st.r.a = to_mix_word(123);
    st.r.x = to_mix_word(-7);
    st.r.i[3] = to_mix_addr(9);
    st.overflow = true;
    st.memory[5] = to_mix_word(42);
    st.pc = 0; // memory[0] is zero: opcode 0, a no-op
    assert_eq!(step(&mut st), Ok(()));
    assert_eq!(st.pc, 1);
    assert_eq!(st.r.a, to_mix_word(123));
    assert_eq!(st.r.x, to_mix_word(-7));
    assert_eq!(st.r.i[3], to_mix_addr(9));
    assert!(st.overflow);
    assert_eq!(st.memory[5], to_mix_word(42));
    assert!(matches!(st.comparison, MixCompare::Equal));
}

#[test]
fn step_executes_the_fetched_instruction() {
    let mut st = MixState::new();
    st.r.a = to_mix_word(10);
    st.memory[0] = instr(100, 0, 5, 1); // ADD from address 100, full field
    st.memory[100] = to_mix_word(5);
    assert_eq!(step(&mut st), Ok(()));
    assert_eq!(st.pc, 1);
    assert_eq!(st.r.a, to_mix_word(15));
}

#[test]
fn step_with_counter_outside_memory_fails() {
    let mut st = MixState::new();
    st.pc = 4000;
    assert_eq!(step(&mut st), Err(EngineError::MemoryOutOfBounds));
    assert_eq!(st.pc, 4000);
}

#[test]
fn unimplemented_opcode_families_report_not_implemented() {
    let mut st = MixState::new();
    // A load instruction: dispatch reaches the extension point.
    assert_eq!(
        do_mix_instruction(instr(0, 0, 5, 8), &mut st),
        Err(EngineError::NotImplemented)
    );
    // The state is untouched.
    assert_eq!(st.pc, 0);
    assert_eq!(st.r.a, 0);
    // Direct call of the extension point itself.
    assert_eq!(do_load(8, 5, 0, &mut st), Err(EngineError::NotImplemented));
}

#[test]
fn arithmetic_with_bad_field_specification_fails() {
    let mut st = MixState::new();
    assert_eq!(
        do_mix_instruction(instr(0, 0, 7, 1), &mut st),
        Err(EngineError::BadFieldSpecification)
    );
    assert_eq!(st.r.a, 0);
}

#[test]
fn arithmetic_applies_the_field_specification() {
    let mut st = MixState::new();
    // Operand word -(1 2 3 4 5); field (1,1) keeps byte 1 left-justified,
    // dropping the sign, so the operand value is 1 * 64^4.
    st.memory[30] = word_from_bytes(1, 1, 2, 3, 4, 5);
    st.r.a = to_mix_word(0);
    assert_eq!(do_arithmetic(1, 9, to_mix_addr(30), &mut st), Ok(()));
    assert_eq!(from_mix_word(st.r.a), 0x100_0000);
}

#[test]
fn run_stops_at_the_first_error() {
    let mut st = MixState::new();
    // All of memory is no-ops: the machine walks off the end.
    assert_eq!(run(&mut st), EngineError::MemoryOutOfBounds);
    assert_eq!(st.pc, 4000);

    let mut st2 = MixState::new();
    st2.memory[2] = instr(0, 0, 5, 8); // an unimplemented load
    assert_eq!(run(&mut st2), EngineError::NotImplemented);
    assert_eq!(st2.pc, 2);
}
