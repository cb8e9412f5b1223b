use chip8::font::font_table;
use chip8::machine::Chip8;
use chip8::model::{Chip8Error, Quirks};

fn keys_with(pressed: &[usize]) -> Vec<bool> {
    let mut keys = vec![false; 16];
    for &k in pressed {
        keys[k] = true;
    }
    keys
}

#[test]
fn a_fresh_machine_is_zeroed_with_the_font_in_place() {
    let m = Chip8::new(Quirks::default(), 16);
    assert_eq!(m.program_counter(), 0x200);
    assert_eq!(m.index_register(), 0);
    assert_eq!(m.delay_value(), 0);
    assert_eq!(m.sound_value(), 0);
    assert_eq!(m.stack_depth(), 0);
    assert!(!m.should_quit());
    for j in 0..16 {
        assert_eq!(m.register(j), 0);
    }
    for y in 0..32 {
        for x in 0..64 {
            assert!(!m.pixel(x, y));
        }
    }
    let font = font_table();
    for (j, &byte) in font.iter().enumerate() {
        assert_eq!(m.memory_byte(0x50 + j), byte);
    }
    // Glyph 0 starts with row 0xF0.
    assert_eq!(m.memory_byte(0x50), 0xF0);
    assert_eq!(m.memory_byte(0x4F), 0);
    assert_eq!(m.memory_byte(0xA0), 0);
    let q = m.quirk_config();
    assert!(q.legacy_shift);
    assert!(!q.jump_offset_uses_vx);
    assert!(!q.index_advances_on_bulk);
    assert!(!q.sprite_wrap);
}

#[test]
fn loading_clears_the_writable_region_first() {
    let mut m = Chip8::new(Quirks::default(), 16);
    m.load_rom(&vec![1, 2, 3]).unwrap();
    assert_eq!(m.memory_byte(0x200), 1);
    assert_eq!(m.memory_byte(0x201), 2);
    assert_eq!(m.memory_byte(0x202), 3);
    m.load_rom(&vec![9]).unwrap();
    assert_eq!(m.memory_byte(0x200), 9);
    assert_eq!(m.memory_byte(0x201), 0);
    assert_eq!(m.memory_byte(0x202), 0);
    // The font region is untouched by loading.
    assert_eq!(m.memory_byte(0x50), 0xF0);
}

#[test]
fn an_image_larger_than_memory_is_rejected() {
    let mut m = Chip8::new(Quirks::default(), 16);
    assert!(m.load_rom(&vec![0; 3584]).is_ok());
    let before = m.memory_byte(0x200);
    assert_eq!(
        m.load_rom(&vec![7; 3585]),
        Err(Chip8Error::ProgramTooLarge { len: 3585 })
    );
    assert_eq!(m.memory_byte(0x200), before);
}

#[test]
fn wait_for_key_spins_until_a_key_arrives() {
    let mut m = Chip8::new(Quirks::default(), 16);
    m.load_rom(&vec![0xFA, 0x0A]).unwrap();
    for _ in 0..3 {
        m.single_instruction().unwrap();
        assert_eq!(m.program_counter(), 0x200);
        assert_eq!(m.register(0xA), 0);
    }
    m.set_keys(keys_with(&[7, 9]));
    m.single_instruction().unwrap();
    assert_eq!(m.program_counter(), 0x202);
    // The lowest pressed key is stored.
    assert_eq!(m.register(0xA), 7);
}

#[test]
fn awaiting_key_names_the_suspended_state() {
    let mut m = Chip8::new(Quirks::default(), 16);
    m.load_rom(&vec![0x6A, 0x01, 0xFA, 0x0A]).unwrap();
    assert!(!m.awaiting_key());
    m.single_instruction().unwrap();
    assert!(m.awaiting_key());
    m.single_instruction().unwrap();
    assert!(m.awaiting_key());
    m.set_keys(keys_with(&[3]));
    assert!(!m.awaiting_key());
    m.single_instruction().unwrap();
    assert_eq!(m.register(0xA), 3);
    assert!(!m.awaiting_key());
}

#[test]
fn skip_if_key_consults_the_snapshot() {
    // EX9E skips when key VX is pressed.
    let mut m = Chip8::new(Quirks::default(), 16);
    m.load_rom(&vec![0x6A, 0x05, 0xEA, 0x9E]).unwrap();
    m.set_keys(keys_with(&[5]));
    m.single_instruction().unwrap();
    m.single_instruction().unwrap();
    assert_eq!(m.program_counter(), 0x206);

    // EXA1 skips when key VX is not pressed.
    let mut m2 = Chip8::new(Quirks::default(), 16);
    m2.load_rom(&vec![0x6A, 0x05, 0xEA, 0xA1]).unwrap();
    m2.set_keys(keys_with(&[5]));
    m2.single_instruction().unwrap();
    m2.single_instruction().unwrap();
    assert_eq!(m2.program_counter(), 0x204);
}

#[test]
fn call_and_return_round_trip() {
    let mut rom = vec![0u8; 0x102];
    rom[0] = 0x23; // 2300: call 0x300
    rom[1] = 0x00;
    rom[0x100] = 0x00; // at 0x300: 00EE, return
    rom[0x101] = 0xEE;
    let mut m = Chip8::new(Quirks::default(), 16);
    m.load_rom(&rom).unwrap();
    m.single_instruction().unwrap();
    assert_eq!(m.program_counter(), 0x300);
    assert_eq!(m.stack_depth(), 1);
    m.single_instruction().unwrap();
    // Control resumes at the instruction after the call.
    assert_eq!(m.program_counter(), 0x202);
    assert_eq!(m.stack_depth(), 0);
}

#[test]
fn nested_calls_return_in_reverse_order() {
    let mut rom = vec![0u8; 0x202];
    rom[0] = 0x23; // 0x200: call 0x300
    rom[1] = 0x00;
    rom[0x100] = 0x24; // 0x300: call 0x400
    rom[0x101] = 0x00;
    rom[0x102] = 0x00; // 0x302: return
    rom[0x103] = 0xEE;
    rom[0x200] = 0x00; // 0x400: return
    rom[0x201] = 0xEE;
    let mut m = Chip8::new(Quirks::default(), 16);
    m.load_rom(&rom).unwrap();
    m.single_instruction().unwrap();
    m.single_instruction().unwrap();
    assert_eq!(m.program_counter(), 0x400);
    assert_eq!(m.stack_depth(), 2);
    m.single_instruction().unwrap();
    assert_eq!(m.program_counter(), 0x302);
    m.single_instruction().unwrap();
    assert_eq!(m.program_counter(), 0x202);
    assert_eq!(m.stack_depth(), 0);
}

#[test]
fn single_loop_ticks_timers_then_runs_the_batch() {
    let mut m = Chip8::new(Quirks::default(), 16);
    // Set the delay timer to 5, then idle on a self-jump at 0x204.
    m.load_rom(&vec![0x6A, 0x05, 0xFA, 0x15, 0x12, 0x04]).unwrap();
    m.single_loop(2).unwrap();
    assert_eq!(m.delay_value(), 5);
    assert_eq!(m.program_counter(), 0x204);
    for _ in 0..3 {
        m.single_loop(1).unwrap();
    }
    assert_eq!(m.delay_value(), 2);
    assert_eq!(m.program_counter(), 0x204);
}

#[test]
fn single_loop_stops_at_the_first_fatal_instruction() {
    let mut m = Chip8::new(Quirks::default(), 16);
    // One good instruction, then an undefined encoding.
    m.load_rom(&vec![0x6A, 0x01, 0x00, 0xE1]).unwrap();
    assert_eq!(
        m.single_loop(5),
        Err(Chip8Error::Decode {
            instr: 0x00E1,
            pc: 0x202
        })
    );
    assert_eq!(m.register(0xA), 1);
    assert_eq!(m.program_counter(), 0x202);
}

#[test]
fn quit_is_a_cooperative_flag() {
    let mut m = Chip8::new(Quirks::default(), 16);
    assert!(!m.should_quit());
    m.request_quit();
    assert!(m.should_quit());
}

#[test]
fn the_font_table_holds_eighty_bytes_of_five_row_glyphs() {
    let font = font_table();
    assert_eq!(font.len(), 80);
    // Glyph 1: a thin column with a wide base.
    assert_eq!(&font[5..10], &[0x20, 0x60, 0x20, 0x20, 0x70]);
    // Glyph F: the last glyph in the table.
    assert_eq!(&font[75..80], &[0xF0, 0x80, 0xF0, 0x80, 0x80]);
}
