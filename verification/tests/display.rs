use chip8::machine::Chip8;
use chip8::model::Quirks;

fn machine_with_rows(quirks: Quirks, rows: &[u8]) -> Chip8 {
    let mut m = Chip8::new(quirks, 16);
    m.load_rom(&rows.to_vec()).unwrap();
    m
}

fn snapshot(m: &Chip8) -> Vec<bool> {
    let mut cells = Vec::new();
    for y in 0..32 {
        for x in 0..64 {
            cells.push(m.pixel(x, y));
        }
    }
    cells
}

#[test]
fn drawing_twice_restores_the_framebuffer() {
    // Glyph 0 of the built-in font: five rows at 0x50.
    let mut m = Chip8::new(Quirks::default(), 16);
    let before = snapshot(&m);
    m.draw_sprite(0x50, 5, 10, 5);
    assert!(m.pixel(10, 5));
    m.draw_sprite(0x50, 5, 10, 5);
    assert_eq!(snapshot(&m), before);
}

#[test]
fn collision_flag_reports_overlap() {
    let mut m = Chip8::new(Quirks::default(), 16);
    // Into an all-clear region: no collision.
    m.draw_sprite(0x50, 5, 10, 5);
    assert_eq!(m.register(0xF), 0);
    // The same sprite again overlaps every pixel it set.
    m.draw_sprite(0x50, 5, 10, 5);
    assert_eq!(m.register(0xF), 1);
    // The overlap toggled everything back off, so a third draw is clean.
    m.draw_sprite(0x50, 5, 10, 5);
    assert_eq!(m.register(0xF), 0);
}

#[test]
fn sprite_wrap_carries_columns_around_the_edge() {
    let wrapping = Quirks {
        sprite_wrap: true,
        ..Quirks::default()
    };
    let mut m = machine_with_rows(wrapping, &[0xFF]);
    m.draw_sprite(0x200, 1, 60, 0);
    for col in [60usize, 61, 62, 63, 0, 1, 2, 3] {
        assert!(m.pixel(col, 0), "column {col} should be set");
    }
    for col in 4..60 {
        assert!(!m.pixel(col, 0));
    }
    for y in 1..32 {
        for x in 0..64 {
            assert!(!m.pixel(x, y));
        }
    }
}

#[test]
fn sprite_clip_drops_pixels_past_the_edge() {
    let mut m = machine_with_rows(Quirks::default(), &[0xFF]);
    m.draw_sprite(0x200, 1, 60, 0);
    for col in [60usize, 61, 62, 63] {
        assert!(m.pixel(col, 0), "column {col} should be set");
    }
    for col in 0..60 {
        assert!(!m.pixel(col, 0));
    }
}

#[test]
fn sprite_rows_wrap_and_clip_vertically() {
    let wrapping = Quirks {
        sprite_wrap: true,
        ..Quirks::default()
    };
    let mut m = machine_with_rows(wrapping, &[0x80, 0x80, 0x80]);
    m.draw_sprite(0x200, 3, 0, 30);
    assert!(m.pixel(0, 30));
    assert!(m.pixel(0, 31));
    assert!(m.pixel(0, 0));

    let mut m2 = machine_with_rows(Quirks::default(), &[0x80, 0x80, 0x80]);
    m2.draw_sprite(0x200, 3, 0, 30);
    assert!(m2.pixel(0, 30));
    assert!(m2.pixel(0, 31));
    assert!(!m2.pixel(0, 0));
}

#[test]
fn anchor_is_reduced_modulo_screen_size() {
    // Anchor (74, 37) behaves as (10, 5) regardless of the wrap quirk.
    let mut m = machine_with_rows(Quirks::default(), &[0x80]);
    m.draw_sprite(0x200, 1, 74, 37);
    assert!(m.pixel(10, 5));
}

#[test]
fn draw_instruction_reads_coordinates_from_registers() {
    // Draw the font glyph for 0 at (V0, V1) through the instruction stream.
    let mut m = machine_with_rows(
        Quirks::default(),
        &[0x60, 12, 0x61, 3, 0xA0, 0x50, 0xD0, 0x15],
    );
    for _ in 0..4 {
        m.single_instruction().unwrap();
    }
    // Top row of glyph 0 is 0xF0: four set pixels.
    assert!(m.pixel(12, 3));
    assert!(m.pixel(13, 3));
    assert!(m.pixel(14, 3));
    assert!(m.pixel(15, 3));
    assert!(!m.pixel(16, 3));
    assert_eq!(m.register(0xF), 0);
}

#[test]
fn clear_instruction_blanks_the_screen() {
    let mut m = machine_with_rows(Quirks::default(), &[0x00, 0xE0]);
    m.draw_sprite(0x50, 5, 0, 0);
    assert!(m.pixel(0, 0));
    m.single_instruction().unwrap();
    for y in 0..32 {
        for x in 0..64 {
            assert!(!m.pixel(x, y));
        }
    }
    assert_eq!(m.program_counter(), 0x202);
}

#[test]
fn zero_height_sprite_draws_nothing() {
    let mut m = machine_with_rows(Quirks::default(), &[0xFF]);
    m.draw_sprite(0x200, 0, 5, 5);
    for y in 0..32 {
        for x in 0..64 {
            assert!(!m.pixel(x, y));
        }
    }
    assert_eq!(m.register(0xF), 0);
}
