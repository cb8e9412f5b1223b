//! Mathematical model of the machine and of every instruction: the machine
//! state as sequences and scalars, the decoder as arithmetic on the 16-bit
//! instruction word, and `spec_step` as the meaning of one
//! fetch-decode-execute cycle.

use vstd::prelude::*;

use crate::sprite::{draw_collision, draw_display};

verus! {

/// Behavioural switches on which historical interpreters disagree.  Each is
/// independently selectable at construction time.
#[derive(Clone, Copy, PartialEq, Eq, Structural, Debug)]
pub struct Quirks {
    /// Shift instructions first copy VY into VX, then shift.
    pub legacy_shift: bool,
    /// The jump-with-offset instruction adds VX instead of V0.
    pub jump_offset_uses_vx: bool,
    /// Bulk register save/load advances the index register past the block.
    pub index_advances_on_bulk: bool,
    /// Sprite pixels wrap around the screen edges instead of being clipped.
    pub sprite_wrap: bool,
}

impl Default for Quirks {
    /// The most common contemporary interpretation: legacy shifts on, the
    /// other variants off.
    fn default() -> (q: Quirks)
        ensures
            q.legacy_shift,
            !q.jump_offset_uses_vx,
            !q.index_advances_on_bulk,
            !q.sprite_wrap,
    {
        Quirks {
            legacy_shift: true,
            jump_offset_uses_vx: false,
            index_advances_on_bulk: false,
            sprite_wrap: false,
        }
    }
}

/// A fatal condition: a malformed guest program or an overfull load.  The
/// interpreter halts loudly instead of guessing.
#[derive(Clone, Copy, PartialEq, Eq, Structural, Debug)]
pub enum Chip8Error {
    /// The program counter ran past the top of memory.
    FetchOutOfRange { pc: u16 },
    /// An encoding not covered by any defined opcode family or sub-case.
    Decode { instr: u16, pc: u16 },
    /// A return instruction found the call stack empty.
    StackUnderflow { pc: u16 },
    /// A call instruction found the call stack at capacity.
    StackOverflow { pc: u16 },
    /// A memory address derived from the index register runs past 0xFFF.
    AddressOutOfRange { instr: u16, pc: u16 },
    /// A program image larger than the writable region above 0x200.
    ProgramTooLarge { len: usize },
}

/// The machine state as mathematics: plain sequences and scalars.
#[verifier::ext_equal]
pub ghost struct MachineView {
    /// 4096 bytes, addresses 0x000..=0xFFF.
    pub memory: Seq<u8>,
    /// The sixteen general registers V0..=VF.
    pub regs: Seq<u8>,
    /// The 16-bit index register, kept below 0x1000.
    pub index: u16,
    /// The program counter.
    pub pc: u16,
    /// The call stack of return addresses, last in first out.
    pub stack: Seq<u16>,
    /// Configured call-stack capacity; pushing past it is fatal.
    pub stack_cap: nat,
    /// The delay timer, decremented towards zero at the fixed tick rate.
    pub delay: u8,
    /// The sound timer; a tone sounds while it is nonzero.
    pub sound: u8,
    /// The 64x32 framebuffer, row-major: pixel (x, y) is cell y * 64 + x.
    pub display: Seq<bool>,
    /// The 16-entry keypad snapshot taken once per cycle.
    pub keys: Seq<bool>,
    /// The configured behaviour variants.
    pub quirks: Quirks,
    /// The cooperative halt request.
    pub quit: bool,
}

impl MachineView {
    /// Well-formedness: the sizes the architecture fixes, and the index
    /// register staying inside addressable memory.
    pub open spec fn wf(self) -> bool {
        &&& self.memory.len() == 4096
        &&& self.regs.len() == 16
        &&& self.display.len() == 2048
        &&& self.keys.len() == 16
        &&& self.index < 0x1000
        &&& self.stack.len() <= self.stack_cap
    }
}

// ---------------------------------------------------------------------------
// Decoding: nibble and byte fields of the instruction word, as arithmetic.
// ---------------------------------------------------------------------------

/// The high nibble selecting the opcode family.
pub open spec fn op_hi(instr: u16) -> u16 {
    instr / 0x1000
}

/// The X register selector (second nibble).
pub open spec fn op_x(instr: u16) -> int {
    ((instr / 0x100) % 16) as int
}

/// The Y register selector (third nibble).
pub open spec fn op_y(instr: u16) -> int {
    ((instr / 16) % 16) as int
}

/// The low nibble N.
pub open spec fn op_n(instr: u16) -> u16 {
    instr % 16
}

/// The low byte NN.
pub open spec fn op_nn(instr: u16) -> u8 {
    (instr % 0x100) as u8
}

/// The low 12 bits NNN.
pub open spec fn op_nnn(instr: u16) -> u16 {
    instr % 0x1000
}

// ---------------------------------------------------------------------------
// Small state and arithmetic helpers.
// ---------------------------------------------------------------------------

/// Addition on bytes, wrapping modulo 256.
pub open spec fn wrap_add8(a: u8, b: u8) -> u8 {
    ((a + b) % 256) as u8
}

/// Subtraction on bytes, wrapping modulo 256.
pub open spec fn wrap_sub8(a: u8, b: u8) -> u8 {
    if a >= b {
        (a - b) as u8
    } else {
        (a - b + 256) as u8
    }
}

/// 1 when the condition holds, else 0: the shape of every VF flag write.
pub open spec fn flag_if(c: bool) -> u8 {
    if c {
        1
    } else {
        0
    }
}

/// One saturating countdown tick of a timer.
pub open spec fn sat_dec(t: u8) -> u8 {
    if t > 0 {
        (t - 1) as u8
    } else {
        0
    }
}

/// The machine with register `x` set to `v`.
pub open spec fn set_reg(m: MachineView, x: int, v: u8) -> MachineView {
    MachineView { regs: m.regs.update(x, v), ..m }
}

/// The machine with register `x` set to `v` and then VF set to `f`; when
/// `x` is 15 the flag write wins, as on the real register file.
pub open spec fn set_reg_and_flag(m: MachineView, x: int, v: u8, f: u8) -> MachineView {
    MachineView { regs: m.regs.update(x, v).update(15, f), ..m }
}

/// The machine with the program counter moved past the next instruction.
pub open spec fn skip_next(m: MachineView) -> MachineView {
    MachineView { pc: (m.pc + 2) as u16, ..m }
}

/// The address the current instruction was fetched from: the program counter
/// is advanced by 2 before dispatch, so fatal reports step it back.
pub open spec fn fetch_pc(m: MachineView) -> u16 {
    (m.pc - 2) as u16
}

/// Memory after the bulk register save: addresses i..=i+x take V0..=VX.
pub open spec fn store_regs(mem: Seq<u8>, regs: Seq<u8>, i: int, x: int) -> Seq<u8> {
    Seq::new(mem.len(), |a: int| if i <= a <= i + x { regs[a - i] } else { mem[a] })
}

/// Registers after the bulk load: V0..=VX take memory at i..=i+x.
pub open spec fn load_regs(regs: Seq<u8>, mem: Seq<u8>, i: int, x: int) -> Seq<u8> {
    Seq::new(regs.len(), |j: int| if 0 <= j <= x { mem[i + j] } else { regs[j] })
}

/// Index register after a bulk save/load under the advancing quirk.
pub open spec fn bulk_index(i: u16, x: int, advance: bool) -> u16 {
    if advance {
        ((i + x + 1) % 0x1000) as u16
    } else {
        i
    }
}

/// An all-clear framebuffer of the given size.
pub open spec fn blank_display(len: nat) -> Seq<bool> {
    Seq::new(len, |c: int| false)
}

/// Memory after loading a program image: the region below 0x200 is kept,
/// the image occupies 0x200 onward, and the rest of writable memory is
/// cleared.
pub open spec fn load_image(mem: Seq<u8>, rom: Seq<u8>) -> Seq<u8> {
    Seq::new(
        mem.len(),
        |a: int|
            if a < 0x200 {
                mem[a]
            } else if a < 0x200 + rom.len() {
                rom[a - 0x200]
            } else {
                0
            },
    )
}

/// The lowest pressed key at or above position `j`, if any.
pub open spec fn first_pressed_from(keys: Seq<bool>, j: int) -> Option<int>
    decreases 16 - j,
{
    if j < 0 || j >= 16 {
        None
    } else if keys[j] {
        Some(j)
    } else {
        first_pressed_from(keys, j + 1)
    }
}

// ---------------------------------------------------------------------------
// Instruction semantics.
// ---------------------------------------------------------------------------

/// The register-register ALU family 8XY0..8XYE.
pub open spec fn spec_alu(m: MachineView, instr: u16) -> Result<MachineView, Chip8Error> {
    let x = op_x(instr);
    let y = op_y(instr);
    let vx = m.regs[x];
    let vy = m.regs[y];
    let sub = op_n(instr);
    if sub == 0x0 {
        Ok(set_reg(m, x, vy))
    } else if sub == 0x1 {
        Ok(set_reg(m, x, vx | vy))
    } else if sub == 0x2 {
        Ok(set_reg(m, x, vx & vy))
    } else if sub == 0x3 {
        Ok(set_reg(m, x, vx ^ vy))
    } else if sub == 0x4 {
        Ok(set_reg_and_flag(m, x, wrap_add8(vx, vy), flag_if(vx + vy > 255)))
    } else if sub == 0x5 {
        Ok(set_reg_and_flag(m, x, wrap_sub8(vx, vy), flag_if(vx >= vy)))
    } else if sub == 0x6 {
        let src = if m.quirks.legacy_shift {
            vy
        } else {
            vx
        };
        Ok(set_reg_and_flag(m, x, (src / 2) as u8, (src % 2) as u8))
    } else if sub == 0x7 {
        Ok(set_reg_and_flag(m, x, wrap_sub8(vy, vx), flag_if(vy >= vx)))
    } else if sub == 0xE {
        let src = if m.quirks.legacy_shift {
            vy
        } else {
            vx
        };
        Ok(set_reg_and_flag(m, x, ((2 * src) % 256) as u8, (src / 128) as u8))
    } else {
        Err(Chip8Error::Decode { instr, pc: fetch_pc(m) })
    }
}

/// The miscellaneous family FX07..FX65.
pub open spec fn spec_misc(m: MachineView, instr: u16) -> Result<MachineView, Chip8Error> {
    let x = op_x(instr);
    let vx = m.regs[x];
    let nn = op_nn(instr);
    if nn == 0x07 {
        Ok(set_reg(m, x, m.delay))
    } else if nn == 0x0A {
        match first_pressed_from(m.keys, 0) {
            Some(k) => Ok(set_reg(m, x, k as u8)),
            None => Ok(MachineView { pc: fetch_pc(m), ..m }),
        }
    } else if nn == 0x15 {
        Ok(MachineView { delay: vx, ..m })
    } else if nn == 0x18 {
        Ok(MachineView { sound: vx, ..m })
    } else if nn == 0x1E {
        Ok(
            MachineView {
                index: ((m.index + vx) % 0x1000) as u16,
                regs: m.regs.update(15, flag_if(m.index + vx >= 0x1000)),
                ..m
            },
        )
    } else if nn == 0x29 {
        Ok(MachineView { index: (0x50 + 5 * (vx % 16)) as u16, ..m })
    } else if nn == 0x33 {
        if m.index + 2 >= 4096 {
            Err(Chip8Error::AddressOutOfRange { instr, pc: fetch_pc(m) })
        } else {
            Ok(
                MachineView {
                    memory: m.memory.update(m.index as int, (vx / 100) as u8).update(
                        m.index + 1,
                        ((vx / 10) % 10) as u8,
                    ).update(m.index + 2, (vx % 10) as u8),
                    ..m
                },
            )
        }
    } else if nn == 0x55 {
        if m.index + x >= 4096 {
            Err(Chip8Error::AddressOutOfRange { instr, pc: fetch_pc(m) })
        } else {
            Ok(
                MachineView {
                    memory: store_regs(m.memory, m.regs, m.index as int, x),
                    index: bulk_index(m.index, x, m.quirks.index_advances_on_bulk),
                    ..m
                },
            )
        }
    } else if nn == 0x65 {
        if m.index + x >= 4096 {
            Err(Chip8Error::AddressOutOfRange { instr, pc: fetch_pc(m) })
        } else {
            Ok(
                MachineView {
                    regs: load_regs(m.regs, m.memory, m.index as int, x),
                    index: bulk_index(m.index, x, m.quirks.index_advances_on_bulk),
                    ..m
                },
            )
        }
    } else {
        Err(Chip8Error::Decode { instr, pc: fetch_pc(m) })
    }
}

/// Execute one decoded instruction on a machine whose program counter has
/// already been advanced past it.  `rand` is the byte the random-number
/// instruction masks; every other instruction ignores it.
#[verifier::opaque]
pub open spec fn spec_execute(m: MachineView, instr: u16, rand: u8) -> Result<
    MachineView,
    Chip8Error,
> {
    let op = op_hi(instr);
    let x = op_x(instr);
    let y = op_y(instr);
    let n = op_n(instr);
    let nn = op_nn(instr);
    let nnn = op_nnn(instr);
    if op == 0x0 {
        if instr == 0x00E0 {
            Ok(MachineView { display: blank_display(m.display.len()), ..m })
        } else if instr == 0x00EE {
            if m.stack.len() == 0 {
                Err(Chip8Error::StackUnderflow { pc: fetch_pc(m) })
            } else {
                Ok(MachineView { pc: m.stack.last(), stack: m.stack.drop_last(), ..m })
            }
        } else {
            Err(Chip8Error::Decode { instr, pc: fetch_pc(m) })
        }
    } else if op == 0x1 {
        Ok(MachineView { pc: nnn, ..m })
    } else if op == 0x2 {
        if m.stack.len() >= m.stack_cap {
            Err(Chip8Error::StackOverflow { pc: fetch_pc(m) })
        } else {
            Ok(MachineView { stack: m.stack.push(m.pc), pc: nnn, ..m })
        }
    } else if op == 0x3 {
        Ok(
            if m.regs[x] == nn {
                skip_next(m)
            } else {
                m
            },
        )
    } else if op == 0x4 {
        Ok(
            if m.regs[x] != nn {
                skip_next(m)
            } else {
                m
            },
        )
    } else if op == 0x5 {
        if n == 0 {
            Ok(
                if m.regs[x] == m.regs[y] {
                    skip_next(m)
                } else {
                    m
                },
            )
        } else {
            Err(Chip8Error::Decode { instr, pc: fetch_pc(m) })
        }
    } else if op == 0x6 {
        Ok(set_reg(m, x, nn))
    } else if op == 0x7 {
        Ok(set_reg(m, x, wrap_add8(m.regs[x], nn)))
    } else if op == 0x8 {
        spec_alu(m, instr)
    } else if op == 0x9 {
        if n == 0 {
            Ok(
                if m.regs[x] != m.regs[y] {
                    skip_next(m)
                } else {
                    m
                },
            )
        } else {
            Err(Chip8Error::Decode { instr, pc: fetch_pc(m) })
        }
    } else if op == 0xA {
        Ok(MachineView { index: nnn, ..m })
    } else if op == 0xB {
        let offset = if m.quirks.jump_offset_uses_vx {
            m.regs[x]
        } else {
            m.regs[0]
        };
        Ok(MachineView { pc: (offset + nnn) as u16, ..m })
    } else if op == 0xC {
        Ok(set_reg(m, x, nn & rand))
    } else if op == 0xD {
        if m.index + n > 4096 {
            Err(Chip8Error::AddressOutOfRange { instr, pc: fetch_pc(m) })
        } else {
            let dx = m.regs[x] % 64;
            let dy = m.regs[y] % 32;
            let wrap = m.quirks.sprite_wrap;
            Ok(
                MachineView {
                    display: draw_display(
                        m.display,
                        m.memory,
                        m.index as int,
                        n as int,
                        dx as int,
                        dy as int,
                        wrap,
                    ),
                    regs: m.regs.update(
                        15,
                        flag_if(
                            draw_collision(
                                m.display,
                                m.memory,
                                m.index as int,
                                n as int,
                                dx as int,
                                dy as int,
                                wrap,
                            ),
                        ),
                    ),
                    ..m
                },
            )
        }
    } else if op == 0xE {
        let key = (m.regs[x] % 16) as int;
        if nn == 0x9E {
            Ok(
                if m.keys[key] {
                    skip_next(m)
                } else {
                    m
                },
            )
        } else if nn == 0xA1 {
            Ok(
                if !m.keys[key] {
                    skip_next(m)
                } else {
                    m
                },
            )
        } else {
            Err(Chip8Error::Decode { instr, pc: fetch_pc(m) })
        }
    } else {
        spec_misc(m, instr)
    }
}

/// The big-endian instruction word at the program counter.
pub open spec fn fetch_instr(m: MachineView) -> u16 {
    (m.memory[m.pc as int] * 256 + m.memory[m.pc as int + 1]) as u16
}

/// One full cycle of the interpreter: fetch the word at the program counter,
/// advance the counter by 2, then execute.
pub open spec fn spec_step(m: MachineView, rand: u8) -> Result<MachineView, Chip8Error> {
    if m.pc + 1 >= 4096 {
        Err(Chip8Error::FetchOutOfRange { pc: m.pc })
    } else {
        spec_execute(MachineView { pc: (m.pc + 2) as u16, ..m }, fetch_instr(m), rand)
    }
}

/// A step whose fetch is in range is exactly an execute of the fetched word
/// on the machine with its program counter already advanced.
pub proof fn lemma_step_is_execute(m: MachineView, rand: u8)
    requires
        m.pc + 1 < 4096,
    ensures
        spec_step(m, rand) == spec_execute(
            MachineView { pc: (m.pc + 2) as u16, ..m },
            fetch_instr(m),
            rand,
        ),
{
}

/// One fixed-rate tick of the timer pair: both countdown timers decrement,
/// saturating at zero.
pub open spec fn spec_tick(m: MachineView) -> MachineView {
    MachineView { delay: sat_dec(m.delay), sound: sat_dec(m.sound), ..m }
}

/// The machine after stepping once per entry of `rands`, provided no step
/// fails; `None` when some step is fatal.
pub open spec fn run_ok(m: MachineView, rands: Seq<u8>) -> Option<MachineView>
    decreases rands.len(),
{
    if rands.len() == 0 {
        Some(m)
    } else {
        match spec_step(m, rands[0]) {
            Ok(m2) => run_ok(m2, rands.subrange(1, rands.len() as int)),
            Err(_) => None,
        }
    }
}

/// If no key at or above `j` is pressed, the scan finds nothing.
pub proof fn lemma_first_pressed_none(keys: Seq<bool>, j: int)
    requires
        0 <= j <= 16,
        forall|q: int| j <= q < 16 ==> !keys[q],
    ensures
        first_pressed_from(keys, j) is None,
    decreases 16 - j,
{
    if j < 16 {
        lemma_first_pressed_none(keys, j + 1);
    }
}

/// If some key at or above `j` is pressed, the scan finds the lowest one.
pub proof fn lemma_first_pressed_found(keys: Seq<bool>, j: int)
    requires
        0 <= j <= 16,
        exists|q: int| j <= q < 16 && keys[q],
    ensures
        first_pressed_from(keys, j) matches Some(k) && j <= k < 16 && keys[k] && (forall|q: int|
            j <= q < k ==> !keys[q]),
    decreases 16 - j,
{
    let q0 = choose|q: int| j <= q < 16 && keys[q];
    if keys[j] {
    } else {
        assert(j < q0 < 16 && keys[q0]);
        lemma_first_pressed_found(keys, j + 1);
    }
}

/// Running a batch extended by one random byte is running the batch and then
/// stepping once with that byte.
#[verifier::rlimit(100)]
pub proof fn lemma_run_ok_snoc(m: MachineView, rands: Seq<u8>, r: u8)
    ensures
        run_ok(m, rands.push(r)) == (match run_ok(m, rands) {
            Some(mm) => match spec_step(mm, r) {
                Ok(m2) => Some(m2),
                Err(_) => None::<MachineView>,
            },
            None => None::<MachineView>,
        }),
    decreases rands.len(),
{
    let ext = rands.push(r);
    if rands.len() == 0 {
        assert(ext[0] == r);
        assert(ext.subrange(1, ext.len() as int) =~= Seq::<u8>::empty());
        assert(run_ok(m, rands) == Some(m));
        match spec_step(m, r) {
            Ok(m2) => {
                assert(run_ok(m2, ext.subrange(1, ext.len() as int)) == Some(m2));
                assert(run_ok(m, ext) == Some(m2));
            },
            Err(_) => {
                assert(run_ok(m, ext) is None);
            },
        }
    } else {
        assert(ext[0] == rands[0]);
        let tail = rands.subrange(1, rands.len() as int);
        assert(ext.subrange(1, ext.len() as int) =~= tail.push(r));
        match spec_step(m, rands[0]) {
            Ok(m2) => {
                lemma_run_ok_snoc(m2, tail, r);
                assert(run_ok(m, ext) == run_ok(m2, tail.push(r)));
                assert(run_ok(m, rands) == run_ok(m2, tail));
            },
            Err(_) => {
                assert(run_ok(m, ext) is None);
                assert(run_ok(m, rands) is None);
            },
        }
    }
}

} // verus!
