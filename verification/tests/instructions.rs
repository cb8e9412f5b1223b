use chip8::machine::Chip8;
use chip8::model::{Chip8Error, Quirks};

fn boot(program: &[u8]) -> Chip8 {
    let mut m = Chip8::new(Quirks::default(), 16);
    m.load_rom(&program.to_vec()).unwrap();
    m
}

fn boot_with(quirks: Quirks, program: &[u8]) -> Chip8 {
    let mut m = Chip8::new(quirks, 16);
    m.load_rom(&program.to_vec()).unwrap();
    m
}

fn run(m: &mut Chip8, steps: usize) {
    for _ in 0..steps {
        m.single_instruction().unwrap();
    }
}

#[test]
fn set_then_add_wraps_and_touches_nothing_else() {
    let mut m = boot(&[0x6A, 0x05, 0x7A, 0x03]);
    run(&mut m, 2);
    assert_eq!(m.register(0xA), 8);
    assert_eq!(m.register(0xF), 0);
    for j in 0..16 {
        if j != 0xA {
            assert_eq!(m.register(j), 0);
        }
    }
    assert_eq!(m.program_counter(), 0x204);
}

#[test]
fn add_immediate_wraps_modulo_256() {
    let mut m = boot(&[0x6A, 0xFF, 0x7A, 0x03]);
    run(&mut m, 2);
    assert_eq!(m.register(0xA), 2);
    // 7XNN sets no flag even when it wraps.
    assert_eq!(m.register(0xF), 0);
}

#[test]
fn add_with_carry_sets_vf_exactly_on_overflow() {
    let mut m = boot(&[0x6A, 200, 0x6B, 100, 0x8A, 0xB4]);
    run(&mut m, 3);
    assert_eq!(m.register(0xA), 44);
    assert_eq!(m.register(0xF), 1);

    let mut m2 = boot(&[0x6A, 10, 0x6B, 20, 0x8A, 0xB4]);
    run(&mut m2, 3);
    assert_eq!(m2.register(0xA), 30);
    assert_eq!(m2.register(0xF), 0);
}

#[test]
fn shifts_with_legacy_off_shift_vx_in_place() {
    let modern = Quirks {
        legacy_shift: false,
        ..Quirks::default()
    };
    let mut m = boot_with(modern, &[0x6A, 0x81, 0x8A, 0xB6]);
    run(&mut m, 2);
    assert_eq!(m.register(0xA), 0x40);
    assert_eq!(m.register(0xF), 1);

    let mut m2 = boot_with(modern, &[0x6A, 0x81, 0x8A, 0xBE]);
    run(&mut m2, 2);
    assert_eq!(m2.register(0xA), 0x02);
    assert_eq!(m2.register(0xF), 1);
}

#[test]
fn shifts_with_legacy_on_copy_vy_first() {
    let mut m = boot(&[0x6B, 0x81, 0x8A, 0xB6]);
    run(&mut m, 2);
    assert_eq!(m.register(0xA), 0x40);
    assert_eq!(m.register(0xF), 1);
    assert_eq!(m.register(0xB), 0x81);

    let mut m2 = boot(&[0x6B, 0x03, 0x8A, 0xBE]);
    run(&mut m2, 2);
    assert_eq!(m2.register(0xA), 0x06);
    assert_eq!(m2.register(0xF), 0);
}

#[test]
fn alu_assign_or_and_xor() {
    let mut m = boot(&[0x6A, 0b1100, 0x6B, 0b1010, 0x8A, 0xB1]);
    run(&mut m, 3);
    assert_eq!(m.register(0xA), 0b1110);

    let mut m2 = boot(&[0x6A, 0b1100, 0x6B, 0b1010, 0x8A, 0xB2]);
    run(&mut m2, 3);
    assert_eq!(m2.register(0xA), 0b1000);

    let mut m3 = boot(&[0x6A, 0b1100, 0x6B, 0b1010, 0x8A, 0xB3]);
    run(&mut m3, 3);
    assert_eq!(m3.register(0xA), 0b0110);

    let mut m4 = boot(&[0x6B, 0x5D, 0x8A, 0xB0]);
    run(&mut m4, 2);
    assert_eq!(m4.register(0xA), 0x5D);
}

#[test]
fn subtract_sets_not_borrow_flag_both_orderings() {
    // 8XY5: VX := VX - VY, VF = 1 iff VX >= VY beforehand.
    let mut m = boot(&[0x6A, 20, 0x6B, 10, 0x8A, 0xB5]);
    run(&mut m, 3);
    assert_eq!(m.register(0xA), 10);
    assert_eq!(m.register(0xF), 1);

    let mut m2 = boot(&[0x6A, 10, 0x6B, 20, 0x8A, 0xB5]);
    run(&mut m2, 3);
    assert_eq!(m2.register(0xA), 246);
    assert_eq!(m2.register(0xF), 0);

    // 8XY7: VX := VY - VX, VF = 1 iff VY >= VX beforehand.
    let mut m3 = boot(&[0x6A, 10, 0x6B, 20, 0x8A, 0xB7]);
    run(&mut m3, 3);
    assert_eq!(m3.register(0xA), 10);
    assert_eq!(m3.register(0xF), 1);

    let mut m4 = boot(&[0x6A, 20, 0x6B, 10, 0x8A, 0xB7]);
    run(&mut m4, 3);
    assert_eq!(m4.register(0xA), 246);
    assert_eq!(m4.register(0xF), 0);
}

#[test]
fn skip_instructions_compare_as_documented() {
    // 3XNN skips when VX == NN.
    let mut m = boot(&[0x6A, 7, 0x3A, 7]);
    run(&mut m, 2);
    assert_eq!(m.program_counter(), 0x206);
    let mut m2 = boot(&[0x6A, 7, 0x3A, 8]);
    run(&mut m2, 2);
    assert_eq!(m2.program_counter(), 0x204);

    // 4XNN skips when VX != NN.
    let mut m3 = boot(&[0x6A, 7, 0x4A, 8]);
    run(&mut m3, 2);
    assert_eq!(m3.program_counter(), 0x206);

    // 5XY0 skips when VX == VY; 9XY0 when VX != VY.
    let mut m4 = boot(&[0x6A, 7, 0x6B, 7, 0x5A, 0xB0]);
    run(&mut m4, 3);
    assert_eq!(m4.program_counter(), 0x208);
    let mut m5 = boot(&[0x6A, 7, 0x6B, 8, 0x9A, 0xB0]);
    run(&mut m5, 3);
    assert_eq!(m5.program_counter(), 0x208);
}

#[test]
fn jump_and_jump_with_offset() {
    let mut m = boot(&[0x13, 0x00]);
    run(&mut m, 1);
    assert_eq!(m.program_counter(), 0x300);

    // BNNN adds V0 by default.
    let mut m2 = boot(&[0x60, 5, 0x63, 7, 0xB3, 0x00]);
    run(&mut m2, 3);
    assert_eq!(m2.program_counter(), 0x305);

    // Under the quirk it adds VX instead (here X = 3).
    let vx_jump = Quirks {
        jump_offset_uses_vx: true,
        ..Quirks::default()
    };
    let mut m3 = boot_with(vx_jump, &[0x60, 5, 0x63, 7, 0xB3, 0x00]);
    run(&mut m3, 3);
    assert_eq!(m3.program_counter(), 0x307);
}

#[test]
fn random_masked_with_zero_is_zero() {
    let mut m = boot(&[0x6A, 0xFF, 0xCA, 0x00]);
    run(&mut m, 2);
    assert_eq!(m.register(0xA), 0);
    assert_eq!(m.program_counter(), 0x204);
}

#[test]
fn index_register_instructions() {
    let mut m = boot(&[0xA1, 0x23]);
    run(&mut m, 1);
    assert_eq!(m.index_register(), 0x123);

    // FX1E wraps modulo 0x1000 and reports 12-bit overflow in VF.
    let mut m2 = boot(&[0xAF, 0xFF, 0x6A, 0x01, 0xFA, 0x1E]);
    run(&mut m2, 3);
    assert_eq!(m2.index_register(), 0x000);
    assert_eq!(m2.register(0xF), 1);

    let mut m3 = boot(&[0xA0, 0x0A, 0x6A, 0x05, 0xFA, 0x1E]);
    run(&mut m3, 3);
    assert_eq!(m3.index_register(), 0x00F);
    assert_eq!(m3.register(0xF), 0);
}

#[test]
fn font_pointer_uses_low_nibble() {
    let mut m = boot(&[0x6A, 0x0F, 0xFA, 0x29]);
    run(&mut m, 2);
    assert_eq!(m.index_register(), 0x50 + 5 * 0xF);

    let mut m2 = boot(&[0x6A, 0xF2, 0xFA, 0x29]);
    run(&mut m2, 2);
    assert_eq!(m2.index_register(), 0x50 + 5 * 2);
}

#[test]
fn bcd_writes_three_decimal_digits() {
    let mut m = boot(&[0x6A, 234, 0xAF, 0x00, 0xFA, 0x33]);
    run(&mut m, 3);
    assert_eq!(m.memory_byte(0xF00), 2);
    assert_eq!(m.memory_byte(0xF01), 3);
    assert_eq!(m.memory_byte(0xF02), 4);

    let mut m2 = boot(&[0x6A, 7, 0xAF, 0x00, 0xFA, 0x33]);
    run(&mut m2, 3);
    assert_eq!(m2.memory_byte(0xF00), 0);
    assert_eq!(m2.memory_byte(0xF01), 0);
    assert_eq!(m2.memory_byte(0xF02), 7);
}

#[test]
fn bulk_store_and_load_round_trip() {
    let mut m = boot(&[
        0x60, 11, 0x61, 22, 0x62, 33, 0xA3, 0x00, 0xF2, 0x55,
    ]);
    run(&mut m, 5);
    assert_eq!(m.memory_byte(0x300), 11);
    assert_eq!(m.memory_byte(0x301), 22);
    assert_eq!(m.memory_byte(0x302), 33);
    // Index is not advanced by default.
    assert_eq!(m.index_register(), 0x300);

    // Load them back into a machine whose registers were cleared.
    let mut m2 = boot(&[
        0x60, 11, 0x61, 22, 0x62, 33, 0xA3, 0x00, 0xF2, 0x55, 0x60, 0, 0x61, 0, 0x62, 0, 0xF2,
        0x65,
    ]);
    run(&mut m2, 9);
    assert_eq!(m2.register(0), 11);
    assert_eq!(m2.register(1), 22);
    assert_eq!(m2.register(2), 33);
    assert_eq!(m2.register(3), 0);
}

#[test]
fn bulk_copy_advances_index_under_quirk() {
    let advancing = Quirks {
        index_advances_on_bulk: true,
        ..Quirks::default()
    };
    let mut m = boot_with(advancing, &[0x60, 11, 0xA3, 0x00, 0xF1, 0x55]);
    run(&mut m, 3);
    assert_eq!(m.index_register(), 0x302);
}

#[test]
fn timers_set_read_and_saturate() {
    let mut m = boot(&[0x6A, 5, 0xFA, 0x15, 0x6B, 0, 0xFB, 0x07]);
    run(&mut m, 2);
    assert_eq!(m.delay_value(), 5);
    for _ in 0..5 {
        m.handle_delay_timer();
    }
    assert_eq!(m.delay_value(), 0);
    // A sixth tick must not wrap below zero.
    m.handle_delay_timer();
    assert_eq!(m.delay_value(), 0);
    // FX07 reads the delay timer back.
    run(&mut m, 2);
    assert_eq!(m.register(0xB), 0);
}

#[test]
fn sound_timer_gates_the_tone() {
    let mut m = boot(&[0x6A, 2, 0xFA, 0x18]);
    run(&mut m, 2);
    assert!(m.tone_active());
    m.handle_sound_timer();
    assert!(m.tone_active());
    m.handle_sound_timer();
    assert!(!m.tone_active());
    m.handle_sound_timer();
    assert_eq!(m.sound_value(), 0);
}

#[test]
fn decode_errors_identify_instruction_and_address() {
    // 5XY1 is not a defined encoding within the 5 family.
    let mut m = boot(&[0x5A, 0xB1]);
    assert_eq!(
        m.single_instruction(),
        Err(Chip8Error::Decode {
            instr: 0x5AB1,
            pc: 0x200
        })
    );
    // A fatal step leaves the machine untouched.
    assert_eq!(m.program_counter(), 0x200);

    let mut m2 = boot(&[0x9A, 0xB2]);
    assert_eq!(
        m2.single_instruction(),
        Err(Chip8Error::Decode {
            instr: 0x9AB2,
            pc: 0x200
        })
    );

    let mut m3 = boot(&[0x8A, 0xB8]);
    assert_eq!(
        m3.single_instruction(),
        Err(Chip8Error::Decode {
            instr: 0x8AB8,
            pc: 0x200
        })
    );

    let mut m4 = boot(&[0x00, 0xE1]);
    assert_eq!(
        m4.single_instruction(),
        Err(Chip8Error::Decode {
            instr: 0x00E1,
            pc: 0x200
        })
    );

    let mut m5 = boot(&[0xEA, 0x9F]);
    assert_eq!(
        m5.single_instruction(),
        Err(Chip8Error::Decode {
            instr: 0xEA9F,
            pc: 0x200
        })
    );

    let mut m6 = boot(&[0xFA, 0x56]);
    assert_eq!(
        m6.single_instruction(),
        Err(Chip8Error::Decode {
            instr: 0xFA56,
            pc: 0x200
        })
    );
}

#[test]
fn stack_errors_are_fatal() {
    let mut m = boot(&[0x00, 0xEE]);
    assert_eq!(
        m.single_instruction(),
        Err(Chip8Error::StackUnderflow { pc: 0x200 })
    );

    let mut m2 = Chip8::new(Quirks::default(), 1);
    m2.load_rom(&vec![0x22, 0x02, 0x22, 0x04]).unwrap();
    m2.single_instruction().unwrap();
    assert_eq!(m2.stack_depth(), 1);
    assert_eq!(
        m2.single_instruction(),
        Err(Chip8Error::StackOverflow { pc: 0x202 })
    );
}

#[test]
fn derived_addresses_past_memory_are_fatal() {
    // FX33 needs three bytes starting at the index register.
    let mut m = boot(&[0xAF, 0xFE, 0xFA, 0x33]);
    run(&mut m, 1);
    assert_eq!(
        m.single_instruction(),
        Err(Chip8Error::AddressOutOfRange {
            instr: 0xFA33,
            pc: 0x202
        })
    );

    // DXYN reads N sprite rows starting at the index register.
    let mut m2 = boot(&[0xAF, 0xFF, 0xDA, 0xB5]);
    run(&mut m2, 1);
    assert_eq!(
        m2.single_instruction(),
        Err(Chip8Error::AddressOutOfRange {
            instr: 0xDAB5,
            pc: 0x202
        })
    );

    // FX55 writes X + 1 bytes starting at the index register.
    let mut m3 = boot(&[0xAF, 0xFF, 0xF1, 0x55]);
    run(&mut m3, 1);
    assert_eq!(
        m3.single_instruction(),
        Err(Chip8Error::AddressOutOfRange {
            instr: 0xF155,
            pc: 0x202
        })
    );
}

#[test]
fn running_off_the_top_of_memory_is_fatal() {
    let mut m = boot(&[0x1F, 0xFF]);
    run(&mut m, 1);
    assert_eq!(m.program_counter(), 0xFFF);
    assert_eq!(
        m.single_instruction(),
        Err(Chip8Error::FetchOutOfRange { pc: 0xFFF })
    );
}
