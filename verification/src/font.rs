//! The built-in font: one 5-byte sprite for each hexadecimal digit 0..=F,
//! written once at construction into the reserved region at 0x050..0x0A0.

use vstd::prelude::*;

verus! {

/// The 80 font bytes, five rows per digit, digit 0 first.
pub open spec fn font_data() -> Seq<u8> {
    seq![
        0xF0u8, 0x90, 0x90, 0x90, 0xF0,  // 0
        0x20, 0x60, 0x20, 0x20, 0x70,  // 1
        0xF0, 0x10, 0xF0, 0x80, 0xF0,  // 2
        0xF0, 0x10, 0xF0, 0x10, 0xF0,  // 3
        0x90, 0x90, 0xF0, 0x10, 0x10,  // 4
        0xF0, 0x80, 0xF0, 0x10, 0xF0,  // 5
        0xF0, 0x80, 0xF0, 0x90, 0xF0,  // 6
        0xF0, 0x10, 0x20, 0x40, 0x40,  // 7
        0xF0, 0x90, 0xF0, 0x90, 0xF0,  // 8
        0xF0, 0x90, 0xF0, 0x10, 0xF0,  // 9
        0xF0, 0x90, 0xF0, 0x90, 0x90,  // A
        0xE0, 0x90, 0xE0, 0x90, 0xE0,  // B
        0xF0, 0x80, 0x80, 0x80, 0xF0,  // C
        0xE0, 0x90, 0x90, 0x90, 0xE0,  // D
        0xF0, 0x80, 0xF0, 0x80, 0xF0,  // E
        0xF0, 0x80, 0xF0, 0x80, 0x80,  // F
    ]
}

/// The font as an executable table, equal to `font_data`.
pub fn font_table() -> (v: Vec<u8>)
    ensures
        v@ == font_data(),
{
    let mut v: Vec<u8> = Vec::new();
    v.push(0xF0);
    v.push(0x90);
    v.push(0x90);
    v.push(0x90);
    v.push(0xF0);
    v.push(0x20);
    v.push(0x60);
    v.push(0x20);
    v.push(0x20);
    v.push(0x70);
    v.push(0xF0);
    v.push(0x10);
    v.push(0xF0);
    v.push(0x80);
    v.push(0xF0);
    v.push(0xF0);
    v.push(0x10);
    v.push(0xF0);
    v.push(0x10);
    v.push(0xF0);
    v.push(0x90);
    v.push(0x90);
    v.push(0xF0);
    v.push(0x10);
    v.push(0x10);
    v.push(0xF0);
    v.push(0x80);
    v.push(0xF0);
    v.push(0x10);
    v.push(0xF0);
    v.push(0xF0);
    v.push(0x80);
    v.push(0xF0);
    v.push(0x90);
    v.push(0xF0);
    v.push(0xF0);
    v.push(0x10);
    v.push(0x20);
    v.push(0x40);
    v.push(0x40);
    v.push(0xF0);
    v.push(0x90);
    v.push(0xF0);
    v.push(0x90);
    v.push(0xF0);
    v.push(0xF0);
    v.push(0x90);
    v.push(0xF0);
    v.push(0x10);
    v.push(0xF0);
    v.push(0xF0);
    v.push(0x90);
    v.push(0xF0);
    v.push(0x90);
    v.push(0x90);
    v.push(0xE0);
    v.push(0x90);
    v.push(0xE0);
    v.push(0x90);
    v.push(0xE0);
    v.push(0xF0);
    v.push(0x80);
    v.push(0x80);
    v.push(0x80);
    v.push(0xF0);
    v.push(0xE0);
    v.push(0x90);
    v.push(0x90);
    v.push(0x90);
    v.push(0xE0);
    v.push(0xF0);
    v.push(0x80);
    v.push(0xF0);
    v.push(0x80);
    v.push(0xF0);
    v.push(0xF0);
    v.push(0x80);
    v.push(0xF0);
    v.push(0x80);
    v.push(0x80);
    proof {
        assert(v@ =~= font_data());
    }
    v
}

/// Write the font table into the reserved region 0x050..0x0A0 of memory,
/// leaving every other byte as it was.
pub fn write_font(mem: &mut Vec<u8>)
    requires
        old(mem)@.len() == 4096,
    ensures
        final(mem)@.len() == 4096,
        forall|a: int| 0x50 <= a < 0xA0 ==> final(mem)@[a] == font_data()[a - 0x50],
        forall|a: int| 0 <= a < 0x50 || 0xA0 <= a < 4096 ==> final(mem)@[a] == old(mem)@[a],
{
    let glyphs = font_table();
    let mut j: usize = 0;
    while j < 80
        invariant
            mem@.len() == 4096,
            glyphs@ == font_data(),
            j <= 80,
            forall|a: int| 0x50 <= a < 0x50 + j ==> mem@[a] == font_data()[a - 0x50],
            forall|a: int| (0 <= a < 0x50 || 0x50 + j <= a < 4096) ==> mem@[a] == old(mem)@[a],
        decreases 80 - j,
    {
        proof {
            assert(font_data().len() == 80);
        }
        mem.set(0x50 + j, glyphs[j]);
        j += 1;
    }
}

} // verus!
