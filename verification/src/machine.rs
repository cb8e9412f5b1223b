//! The machine itself: construction, program loading, the timer pair, the
//! input snapshot, the framebuffer accessors and the cooperative halt flag.
//! Every method's effect is stated against the `MachineView` model.

use vstd::prelude::*;

use crate::font::{font_data, write_font};
use crate::model::{
    blank_display, bulk_index, fetch_instr, first_pressed_from, flag_if, lemma_run_ok_snoc,
    lemma_step_is_execute, load_image, load_regs, op_hi, op_n, op_nn, op_nnn, op_x, op_y, run_ok,
    sat_dec, spec_execute, spec_step, spec_tick, store_regs, Chip8Error, MachineView, Quirks,
};
use crate::sprite::{
    bit_weight, cell_at, collision_before, draw_collision, draw_display, hit_col, hit_row,
    lemma_collision_full, lemma_collision_prefix_step, lemma_collision_row, lemma_fresh_cell,
    lemma_hit_bounds, lemma_hits_prefix_step, lemma_prefix_full, lemma_prefix_row, pixel_drawn,
    sprite_bit, sprite_hits_before,
};

verus! {

/// The interpreter state: memory, register file, call stack, timer pair,
/// framebuffer and keypad snapshot.
pub struct Chip8 {
    memory: Vec<u8>,
    registers: Vec<u8>,
    register_i: u16,
    pc: u16,
    stack: Vec<u16>,
    stack_cap: usize,
    delay_timer: u8,
    sound_timer: u8,
    pixels: Vec<bool>,
    keys: Vec<bool>,
    quirks: Quirks,
    quit: bool,
}

impl View for Chip8 {
    type V = MachineView;

    closed spec fn view(&self) -> MachineView {
        MachineView {
            memory: self.memory@,
            regs: self.registers@,
            index: self.register_i,
            pc: self.pc,
            stack: self.stack@,
            stack_cap: self.stack_cap as nat,
            delay: self.delay_timer,
            sound: self.sound_timer,
            display: self.pixels@,
            keys: self.keys@,
            quirks: self.quirks,
            quit: self.quit,
        }
    }
}

/// A vector of `n` copies of `val`.
fn filled<T: Copy>(val: T, n: usize) -> (v: Vec<T>)
    ensures
        v@.len() == n,
        forall|i: int| 0 <= i < n ==> v@[i] == val,
{
    let mut v: Vec<T> = Vec::new();
    let mut j: usize = 0;
    while j < n
        invariant
            j <= n,
            v@.len() == j,
            forall|i: int| 0 <= i < j ==> v@[i] == val,
        decreases n - j,
    {
        v.push(val);
        j += 1;
    }
    v
}

/// The weight of sprite bit `b` within a row byte, leftmost bit heaviest.
fn bit_weight_exec(b: usize) -> (w: u8)
    requires
        b < 8,
    ensures
        w as int == bit_weight(b as int),
        w >= 1,
{
    if b == 0 {
        128
    } else if b == 1 {
        64
    } else if b == 2 {
        32
    } else if b == 3 {
        16
    } else if b == 4 {
        8
    } else if b == 5 {
        4
    } else if b == 6 {
        2
    } else {
        1
    }
}

impl Chip8 {
    /// Well-formedness of the machine, inherited from the model.
    pub open spec fn wf(self) -> bool {
        self@.wf()
    }

    /// A freshly constructed machine: zeroed memory apart from the font
    /// table, zeroed registers and timers, an empty call stack of the given
    /// capacity, a clear screen, no key pressed, and the program counter at
    /// the start of the program region.
    pub fn new(quirks: Quirks, stack_capacity: usize) -> (m: Chip8)
        ensures
            m.wf(),
            m@.pc == 0x200,
            m@.index == 0,
            m@.delay == 0,
            m@.sound == 0,
            m@.stack == Seq::<u16>::empty(),
            m@.stack_cap == stack_capacity as nat,
            m@.quirks == quirks,
            !m@.quit,
            forall|j: int| 0 <= j < 16 ==> m@.regs[j] == 0,
            forall|c: int| 0 <= c < 2048 ==> !m@.display[c],
            forall|j: int| 0 <= j < 16 ==> !m@.keys[j],
            forall|a: int| 0x50 <= a < 0xA0 ==> m@.memory[a] == font_data()[a - 0x50],
            forall|a: int| (0 <= a < 0x50 || 0xA0 <= a < 4096) ==> m@.memory[a] == 0,
    {
        let mut memory = filled(0u8, 4096);
        write_font(&mut memory);
        Chip8 {
            memory,
            registers: filled(0u8, 16),
            register_i: 0,
            pc: 0x200,
            stack: Vec::new(),
            stack_cap: stack_capacity,
            delay_timer: 0,
            sound_timer: 0,
            pixels: filled(false, 2048),
            keys: filled(false, 16),
            quirks,
            quit: false,
        }
    }

    /// Load a program image into the writable region at 0x200, clearing the
    /// rest of that region first.  An image larger than the region is
    /// rejected before anything is written.
    #[verifier::loop_isolation(false)]
    pub fn load_rom(&mut self, rom: &Vec<u8>) -> (r: Result<(), Chip8Error>)
        requires
            old(self).wf(),
        ensures
            final(self).wf(),
            match r {
                Ok(()) => rom@.len() <= 3584 && final(self)@ == (MachineView {
                    memory: load_image(old(self)@.memory, rom@),
                    ..old(self)@
                }),
                Err(e) => {
                    &&& rom@.len() > 3584
                    &&& e == (Chip8Error::ProgramTooLarge { len: rom@.len() as usize })
                    &&& final(self)@ == old(self)@
                },
            },
    {
        if rom.len() > 3584 {
            return Err(Chip8Error::ProgramTooLarge { len: rom.len() });
        }
        let mut a: usize = 0x200;
        while a < 4096
            invariant
                0x200 <= a <= 4096,
                self@ == (MachineView { memory: self@.memory, ..old(self)@ }),
                self@.memory.len() == 4096,
                forall|j: int| 0 <= j < 0x200 ==> self@.memory[j] == old(self)@.memory[j],
                forall|j: int|
                    0x200 <= j < a ==> self@.memory[j] == load_image(old(self)@.memory, rom@)[j],
            decreases 4096 - a,
        {
            let v: u8 = if a - 0x200 < rom.len() {
                rom[a - 0x200]
            } else {
                0
            };
            self.memory.set(a, v);
            a += 1;
        }
        proof {
            assert(self@.memory =~= load_image(old(self)@.memory, rom@));
            assert(self@ =~= (MachineView {
                memory: load_image(old(self)@.memory, rom@),
                ..old(self)@
            }));
        }
        Ok(())
    }

    /// Clear the display surface; nothing else changes.
    #[verifier::loop_isolation(false)]
    pub fn clear(&mut self)
        requires
            old(self).wf(),
        ensures
            final(self).wf(),
            final(self)@ == (MachineView {
                display: blank_display(old(self)@.display.len()),
                ..old(self)@
            }),
    {
        let mut c: usize = 0;
        while c < 2048
            invariant
                c <= 2048,
                self@ == (MachineView { display: self@.display, ..old(self)@ }),
                self@.display.len() == 2048,
                forall|j: int| 0 <= j < c ==> !self@.display[j],
                forall|j: int| c <= j < 2048 ==> self@.display[j] == old(self)@.display[j],
            decreases 2048 - c,
        {
            self.pixels.set(c, false);
            c += 1;
        }
        proof {
            assert(self@.display =~= blank_display(old(self)@.display.len()));
            assert(self@ =~= (MachineView {
                display: blank_display(old(self)@.display.len()),
                ..old(self)@
            }));
        }
    }

    /// One fixed-rate tick of the delay timer: decrement, saturating at zero.
    pub fn handle_delay_timer(&mut self)
        requires
            old(self).wf(),
        ensures
            final(self).wf(),
            final(self)@ == (MachineView { delay: sat_dec(old(self)@.delay), ..old(self)@ }),
    {
        if self.delay_timer > 0 {
            self.delay_timer = self.delay_timer - 1;
        }
    }

    /// One fixed-rate tick of the sound timer: decrement, saturating at zero.
    /// Whether a tone should sound is read separately through `tone_active`.
    pub fn handle_sound_timer(&mut self)
        requires
            old(self).wf(),
        ensures
            final(self).wf(),
            final(self)@ == (MachineView { sound: sat_dec(old(self)@.sound), ..old(self)@ }),
    {
        if self.sound_timer > 0 {
            self.sound_timer = self.sound_timer - 1;
        }
    }

    /// Replace the keypad snapshot; called once per cycle, before the
    /// instruction batch, so every key decision in the batch sees one
    /// consistent view.
    pub fn set_keys(&mut self, keys: Vec<bool>)
        requires
            old(self).wf(),
            keys@.len() == 16,
        ensures
            final(self).wf(),
            final(self)@ == (MachineView { keys: keys@, ..old(self)@ }),
    {
        self.keys = keys;
    }

    /// Ask the machine to halt; the pacing loop observes this cooperatively.
    pub fn request_quit(&mut self)
        requires
            old(self).wf(),
        ensures
            final(self).wf(),
            final(self)@ == (MachineView { quit: true, ..old(self)@ }),
    {
        self.quit = true;
    }

    /// Whether a halt has been requested.
    pub fn should_quit(&self) -> (r: bool)
        ensures
            r == self@.quit,
    {
        self.quit
    }

    /// Whether the audio collaborator should emit a tone: the sound timer is
    /// nonzero.
    pub fn tone_active(&self) -> (r: bool)
        ensures
            r == (self@.sound > 0),
    {
        self.sound_timer > 0
    }

    /// The current value of general register `x`.
    pub fn register(&self, x: usize) -> (r: u8)
        requires
            self.wf(),
            x < 16,
        ensures
            r == self@.regs[x as int],
    {
        self.registers[x]
    }

    /// The current program counter.
    pub fn program_counter(&self) -> (r: u16)
        ensures
            r == self@.pc,
    {
        self.pc
    }

    /// The current index register.
    pub fn index_register(&self) -> (r: u16)
        ensures
            r == self@.index,
    {
        self.register_i
    }

    /// The current delay timer value.
    pub fn delay_value(&self) -> (r: u8)
        ensures
            r == self@.delay,
    {
        self.delay_timer
    }

    /// The current sound timer value.
    pub fn sound_value(&self) -> (r: u8)
        ensures
            r == self@.sound,
    {
        self.sound_timer
    }

    /// The byte at memory address `addr`.
    pub fn memory_byte(&self, addr: usize) -> (r: u8)
        requires
            self.wf(),
            addr < 4096,
        ensures
            r == self@.memory[addr as int],
    {
        self.memory[addr]
    }

    /// The pixel at column `x`, row `y` of the framebuffer.
    pub fn pixel(&self, x: usize, y: usize) -> (r: bool)
        requires
            self.wf(),
            x < 64,
            y < 32,
        ensures
            r == self@.display[y as int * 64 + x as int],
    {
        self.pixels[y * 64 + x]
    }

    /// One fetch-decode-execute cycle.  On success the machine advances to
    /// exactly the state `spec_step` gives for the byte the random-number
    /// instruction drew; on a fatal condition the machine is unchanged and
    /// the error identifies the offending instruction and its address.
    #[verifier::rlimit(100)]
    pub fn single_instruction(&mut self) -> (r: Result<(), Chip8Error>)
        requires
            old(self).wf(),
        ensures
            final(self).wf(),
            match r {
                Ok(()) => exists|rand: u8|
                    spec_step(old(self)@, rand) == Ok::<MachineView, Chip8Error>(final(self)@),
                Err(e) => final(self)@ == old(self)@ && forall|rand: u8|
                    spec_step(old(self)@, rand) == Err::<MachineView, Chip8Error>(e),
            },
    {
        let pc0 = self.pc;
        if pc0 >= 4095 {
            return Err(Chip8Error::FetchOutOfRange { pc: pc0 });
        }
        let hi = self.memory[pc0 as usize];
        let lo = self.memory[pc0 as usize + 1];
        let instr: u16 = (hi as u16) * 256 + (lo as u16);
        let next_pc: u16 = pc0 + 2;
        let ghost m1 = MachineView { pc: next_pc, ..old(self)@ };
        let ghost mut rand_used: u8 = 0;
        proof {
            assert(instr == fetch_instr(old(self)@));
        }
        let op: u16 = instr / 0x1000;
        let x: usize = ((instr / 0x100) % 16) as usize;
        let yreg: usize = ((instr / 16) % 16) as usize;
        let n: u16 = instr % 16;
        let nn: u8 = (instr % 0x100) as u8;
        let nnn: u16 = instr % 0x1000;
        proof {
            assert(op == op_hi(instr));
            assert(x as int == op_x(instr));
            assert(yreg as int == op_y(instr));
            assert(n == op_n(instr));
            assert(nn == op_nn(instr));
            assert(nnn == op_nnn(instr));
        }
        if op == 0x0 {
            if instr == 0x00E0 {
                self.pc = next_pc;
                self.clear();
            } else if instr == 0x00EE {
                if self.stack.len() == 0 {
                    proof {
                        assert forall|rand: u8|
                            spec_step(old(self)@, rand) == Err::<MachineView, Chip8Error>(
                                Chip8Error::StackUnderflow { pc: pc0 },
                            ) by {
                            reveal(crate::model::spec_execute);
                            lemma_step_is_execute(old(self)@, rand);
                        };
                    }
                    return Err(Chip8Error::StackUnderflow { pc: pc0 });
                }
                let top = self.stack.pop();
                match top {
                    Some(t) => {
                        self.pc = t;
                    },
                    None => {
                        proof {
                            assert(false);
                        }
                    },
                }
                proof {
                    assert(self@.stack =~= m1.stack.drop_last());
                }
            } else {
                proof {
                    assert forall|rand: u8|
                        spec_step(old(self)@, rand) == Err::<MachineView, Chip8Error>(
                            Chip8Error::Decode { instr, pc: pc0 },
                        ) by {
                        reveal(crate::model::spec_execute);
                        lemma_step_is_execute(old(self)@, rand);
                    };
                }
                return Err(Chip8Error::Decode { instr, pc: pc0 });
            }
        } else if op == 0x1 {
            self.pc = nnn;
        } else if op == 0x2 {
            if self.stack.len() >= self.stack_cap {
                proof {
                    assert forall|rand: u8|
                        spec_step(old(self)@, rand) == Err::<MachineView, Chip8Error>(
                            Chip8Error::StackOverflow { pc: pc0 },
                        ) by {
                        reveal(crate::model::spec_execute);
                        lemma_step_is_execute(old(self)@, rand);
                    };
                }
                return Err(Chip8Error::StackOverflow { pc: pc0 });
            }
            self.stack.push(next_pc);
            self.pc = nnn;
        } else if op == 0x3 {
            if self.registers[x] == nn {
                self.pc = next_pc + 2;
            } else {
                self.pc = next_pc;
            }
        } else if op == 0x4 {
            if self.registers[x] != nn {
                self.pc = next_pc + 2;
            } else {
                self.pc = next_pc;
            }
        } else if op == 0x5 {
            if n != 0 {
                proof {
                    assert forall|rand: u8|
                        spec_step(old(self)@, rand) == Err::<MachineView, Chip8Error>(
                            Chip8Error::Decode { instr, pc: pc0 },
                        ) by {
                        reveal(crate::model::spec_execute);
                        lemma_step_is_execute(old(self)@, rand);
                    };
                }
                return Err(Chip8Error::Decode { instr, pc: pc0 });
            }
            if self.registers[x] == self.registers[yreg] {
                self.pc = next_pc + 2;
            } else {
                self.pc = next_pc;
            }
        } else if op == 0x6 {
            self.registers.set(x, nn);
            self.pc = next_pc;
        } else if op == 0x7 {
            let vx = self.registers[x];
            let sum: u16 = vx as u16 + nn as u16;
            self.registers.set(x, (sum % 256) as u8);
            self.pc = next_pc;
        } else if op == 0x8 {
            if n >= 8 && n != 0xE {
                proof {
                    assert forall|rand: u8|
                        spec_step(old(self)@, rand) == Err::<MachineView, Chip8Error>(
                            Chip8Error::Decode { instr, pc: pc0 },
                        ) by {
                        reveal(crate::model::spec_execute);
                        lemma_step_is_execute(old(self)@, rand);
                    };
                }
                return Err(Chip8Error::Decode { instr, pc: pc0 });
            }
            let vx = self.registers[x];
            let vy = self.registers[yreg];
            if n == 0x0 {
                self.registers.set(x, vy);
            } else if n == 0x1 {
                self.registers.set(x, vx | vy);
            } else if n == 0x2 {
                self.registers.set(x, vx & vy);
            } else if n == 0x3 {
                self.registers.set(x, vx ^ vy);
            } else if n == 0x4 {
                let sum: u16 = vx as u16 + vy as u16;
                let flag: u8 = if sum > 255 {
                    1
                } else {
                    0
                };
                self.registers.set(x, (sum % 256) as u8);
                self.registers.set(15, flag);
            } else if n == 0x5 {
                let flag: u8 = if vx >= vy {
                    1
                } else {
                    0
                };
                let diff: u8 = if vx >= vy {
                    vx - vy
                } else {
                    (vx as u16 + 256 - vy as u16) as u8
                };
                self.registers.set(x, diff);
                self.registers.set(15, flag);
            } else if n == 0x6 {
                let src = if self.quirks.legacy_shift {
                    vy
                } else {
                    vx
                };
                self.registers.set(x, src / 2);
                self.registers.set(15, src % 2);
            } else if n == 0x7 {
                let flag: u8 = if vy >= vx {
                    1
                } else {
                    0
                };
                let diff: u8 = if vy >= vx {
                    vy - vx
                } else {
                    (vy as u16 + 256 - vx as u16) as u8
                };
                self.registers.set(x, diff);
                self.registers.set(15, flag);
            } else {
                let src = if self.quirks.legacy_shift {
                    vy
                } else {
                    vx
                };
                self.registers.set(x, ((src as u16 * 2) % 256) as u8);
                self.registers.set(15, src / 128);
            }
            self.pc = next_pc;
        } else if op == 0x9 {
            if n != 0 {
                proof {
                    assert forall|rand: u8|
                        spec_step(old(self)@, rand) == Err::<MachineView, Chip8Error>(
                            Chip8Error::Decode { instr, pc: pc0 },
                        ) by {
                        reveal(crate::model::spec_execute);
                        lemma_step_is_execute(old(self)@, rand);
                    };
                }
                return Err(Chip8Error::Decode { instr, pc: pc0 });
            }
            if self.registers[x] != self.registers[yreg] {
                self.pc = next_pc + 2;
            } else {
                self.pc = next_pc;
            }
        } else if op == 0xA {
            self.register_i = nnn;
            self.pc = next_pc;
        } else if op == 0xB {
            let offset = if self.quirks.jump_offset_uses_vx {
                self.registers[x]
            } else {
                self.registers[0]
            };
            self.pc = offset as u16 + nnn;
        } else if op == 0xC {
            let drawn = crate::rng::random_byte();
            proof {
                rand_used = drawn;
            }
            self.registers.set(x, nn & drawn);
            self.pc = next_pc;
        } else if op == 0xD {
            let i0 = self.register_i;
            if i0 as usize + n as usize > 4096 {
                proof {
                    assert forall|rand: u8|
                        spec_step(old(self)@, rand) == Err::<MachineView, Chip8Error>(
                            Chip8Error::AddressOutOfRange { instr, pc: pc0 },
                        ) by {
                        reveal(crate::model::spec_execute);
                        lemma_step_is_execute(old(self)@, rand);
                    };
                }
                return Err(Chip8Error::AddressOutOfRange { instr, pc: pc0 });
            }
            let vx = self.registers[x];
            let vy = self.registers[yreg];
            self.pc = next_pc;
            self.draw_sprite(i0, n as u8, vx, vy);
            proof {
                assert(vx as int % 64 == (vx % 64) as int);
                assert(vy as int % 32 == (vy % 32) as int);
            }
        } else if op == 0xE {
            if nn != 0x9E && nn != 0xA1 {
                proof {
                    assert forall|rand: u8|
                        spec_step(old(self)@, rand) == Err::<MachineView, Chip8Error>(
                            Chip8Error::Decode { instr, pc: pc0 },
                        ) by {
                        reveal(crate::model::spec_execute);
                        lemma_step_is_execute(old(self)@, rand);
                    };
                }
                return Err(Chip8Error::Decode { instr, pc: pc0 });
            }
            let key = (self.registers[x] % 16) as usize;
            let pressed = self.keys[key];
            let skip = if nn == 0x9E {
                pressed
            } else {
                !pressed
            };
            if skip {
                self.pc = next_pc + 2;
            } else {
                self.pc = next_pc;
            }
        } else {
            if nn == 0x07 {
                let d = self.delay_timer;
                self.registers.set(x, d);
                self.pc = next_pc;
            } else if nn == 0x0A {
                let found = self.first_pressed_key();
                match found {
                    Some(k) => {
                        self.registers.set(x, k);
                        self.pc = next_pc;
                    },
                    None => {
                        self.pc = pc0;
                    },
                }
            } else if nn == 0x15 {
                self.delay_timer = self.registers[x];
                self.pc = next_pc;
            } else if nn == 0x18 {
                self.sound_timer = self.registers[x];
                self.pc = next_pc;
            } else if nn == 0x1E {
                let s: u32 = self.register_i as u32 + self.registers[x] as u32;
                let flag: u8 = if s >= 0x1000 {
                    1
                } else {
                    0
                };
                self.register_i = (s % 0x1000) as u16;
                self.registers.set(15, flag);
                self.pc = next_pc;
            } else if nn == 0x29 {
                let c = self.registers[x] % 16;
                self.register_i = 0x50 + 5 * (c as u16);
                self.pc = next_pc;
            } else if nn == 0x33 {
                let base = self.register_i as usize;
                if base + 2 >= 4096 {
                    proof {
                        assert forall|rand: u8|
                            spec_step(old(self)@, rand) == Err::<MachineView, Chip8Error>(
                                Chip8Error::AddressOutOfRange { instr, pc: pc0 },
                            ) by {
                            reveal(crate::model::spec_execute);
                            lemma_step_is_execute(old(self)@, rand);
                        };
                    }
                    return Err(Chip8Error::AddressOutOfRange { instr, pc: pc0 });
                }
                let v = self.registers[x];
                self.memory.set(base, v / 100);
                self.memory.set(base + 1, (v / 10) % 10);
                self.memory.set(base + 2, v % 10);
                self.pc = next_pc;
            } else if nn == 0x55 {
                if self.register_i as usize + x >= 4096 {
                    proof {
                        assert forall|rand: u8|
                            spec_step(old(self)@, rand) == Err::<MachineView, Chip8Error>(
                                Chip8Error::AddressOutOfRange { instr, pc: pc0 },
                            ) by {
                            reveal(crate::model::spec_execute);
                            lemma_step_is_execute(old(self)@, rand);
                        };
                    }
                    return Err(Chip8Error::AddressOutOfRange { instr, pc: pc0 });
                }
                self.pc = next_pc;
                self.bulk_store(x);
            } else if nn == 0x65 {
                if self.register_i as usize + x >= 4096 {
                    proof {
                        assert forall|rand: u8|
                            spec_step(old(self)@, rand) == Err::<MachineView, Chip8Error>(
                                Chip8Error::AddressOutOfRange { instr, pc: pc0 },
                            ) by {
                            reveal(crate::model::spec_execute);
                            lemma_step_is_execute(old(self)@, rand);
                        };
                    }
                    return Err(Chip8Error::AddressOutOfRange { instr, pc: pc0 });
                }
                self.pc = next_pc;
                self.bulk_load(x);
            } else {
                proof {
                    assert forall|rand: u8|
                        spec_step(old(self)@, rand) == Err::<MachineView, Chip8Error>(
                            Chip8Error::Decode { instr, pc: pc0 },
                        ) by {
                        reveal(crate::model::spec_execute);
                        lemma_step_is_execute(old(self)@, rand);
                    };
                }
                return Err(Chip8Error::Decode { instr, pc: pc0 });
            }
        }
        proof {
            reveal(crate::model::spec_execute);
            lemma_step_is_execute(old(self)@, rand_used);
            assert(spec_execute(m1, instr, rand_used) matches Ok(mm) && mm =~= self@);
            assert(exists|rand: u8|
                spec_step(old(self)@, rand) == Ok::<MachineView, Chip8Error>(self@));
        }
        Ok(())
    }

    /// One iteration of the pacing loop's emulated work: tick both timers
    /// once, then execute a batch of `instructions` cycles, stopping at the
    /// first fatal condition.  The result is some run of the ticked machine:
    /// a full batch on success, a shorter prefix ending in a state whose
    /// next step fails with the reported error otherwise.
    #[verifier::loop_isolation(false)]
    pub fn single_loop(&mut self, instructions: usize) -> (r: Result<(), Chip8Error>)
        requires
            old(self).wf(),
        ensures
            final(self).wf(),
            exists|rands: Seq<u8>|
                #![auto]
                rands.len() <= instructions && run_ok(spec_tick(old(self)@), rands) == Some(
                    final(self)@,
                ) && (match r {
                    Ok(()) => rands.len() == instructions,
                    Err(e) => rands.len() < instructions && (forall|q: u8|
                        spec_step(final(self)@, q) == Err::<MachineView, Chip8Error>(e)),
                }),
    {
        self.handle_delay_timer();
        self.handle_sound_timer();
        proof {
            assert(self@ =~= spec_tick(old(self)@));
        }
        let ghost t0 = spec_tick(old(self)@);
        let ghost mut rands_so_far: Seq<u8> = Seq::empty();
        let mut done: usize = 0;
        while done < instructions
            invariant
                done <= instructions,
                self.wf(),
                rands_so_far.len() == done,
                run_ok(t0, rands_so_far) == Some(self@),
            decreases instructions - done,
        {
            let ghost before = self@;
            let res = self.single_instruction();
            match res {
                Ok(()) => {
                    proof {
                        let rr = choose|rand: u8|
                            spec_step(before, rand) == Ok::<MachineView, Chip8Error>(self@);
                        lemma_run_ok_snoc(t0, rands_so_far, rr);
                        rands_so_far = rands_so_far.push(rr);
                    }
                    done += 1;
                },
                Err(e) => {
                    return Err(e);
                },
            }
        }
        Ok(())
    }

    /// Whether the machine is suspended waiting for a key: the next
    /// instruction is the wait-for-key instruction and no key is pressed in
    /// the current snapshot.  While this holds, cycles make no net progress.
    pub fn awaiting_key(&self) -> (r: bool)
        requires
            self.wf(),
        ensures
            r == (self@.pc + 1 < 4096 && op_hi(fetch_instr(self@)) == 0xF && op_nn(
                fetch_instr(self@),
            ) == 0x0A && first_pressed_from(self@.keys, 0) is None),
    {
        if self.pc >= 4095 {
            return false;
        }
        let hi = self.memory[self.pc as usize];
        let lo = self.memory[self.pc as usize + 1];
        let instr: u16 = (hi as u16) * 256 + (lo as u16);
        instr / 0x1000 == 0xF && instr % 0x100 == 0x0A && self.first_pressed_key().is_none()
    }

    /// The lowest-numbered key pressed in the current snapshot, if any.
    #[verifier::loop_isolation(false)]
    fn first_pressed_key(&self) -> (r: Option<u8>)
        requires
            self.wf(),
        ensures
            match r {
                Some(k) => k < 16 && first_pressed_from(self@.keys, 0) == Some(k as int),
                None => first_pressed_from(self@.keys, 0) is None,
            },
    {
        let mut j: usize = 0;
        while j < 16
            invariant
                j <= 16,
                first_pressed_from(self@.keys, 0) == first_pressed_from(self@.keys, j as int),
            decreases 16 - j,
        {
            if self.keys[j] {
                return Some(j as u8);
            }
            j += 1;
        }
        None
    }

    /// Copy V0..=VX into memory at the index register; under the advancing
    /// quirk the index register ends up past the block.
    #[verifier::loop_isolation(false)]
    fn bulk_store(&mut self, x: usize)
        requires
            old(self).wf(),
            x < 16,
            old(self)@.index + x < 4096,
        ensures
            final(self).wf(),
            final(self)@ == (MachineView {
                memory: store_regs(
                    old(self)@.memory,
                    old(self)@.regs,
                    old(self)@.index as int,
                    x as int,
                ),
                index: bulk_index(
                    old(self)@.index,
                    x as int,
                    old(self)@.quirks.index_advances_on_bulk,
                ),
                ..old(self)@
            }),
    {
        let base = self.register_i as usize;
        let mut j: usize = 0;
        while j <= x
            invariant
                j <= x + 1,
                base == old(self)@.index,
                self@ == (MachineView { memory: self@.memory, ..old(self)@ }),
                self@.memory.len() == 4096,
                forall|a: int|
                    base <= a < base + j ==> self@.memory[a] == old(self)@.regs[a - base],
                forall|a: int|
                    (0 <= a < base || base + j <= a < 4096) ==> self@.memory[a] == old(
                        self,
                    )@.memory[a],
            decreases x + 1 - j,
        {
            self.memory.set(base + j, self.registers[j]);
            j += 1;
        }
        if self.quirks.index_advances_on_bulk {
            self.register_i = ((base + x + 1) % 0x1000) as u16;
        }
        proof {
            assert(self@.memory =~= store_regs(
                old(self)@.memory,
                old(self)@.regs,
                old(self)@.index as int,
                x as int,
            ));
            assert(self@ =~= (MachineView {
                memory: store_regs(
                    old(self)@.memory,
                    old(self)@.regs,
                    old(self)@.index as int,
                    x as int,
                ),
                index: bulk_index(
                    old(self)@.index,
                    x as int,
                    old(self)@.quirks.index_advances_on_bulk,
                ),
                ..old(self)@
            }));
        }
    }

    /// Fill V0..=VX from memory at the index register; under the advancing
    /// quirk the index register ends up past the block.
    #[verifier::loop_isolation(false)]
    fn bulk_load(&mut self, x: usize)
        requires
            old(self).wf(),
            x < 16,
            old(self)@.index + x < 4096,
        ensures
            final(self).wf(),
            final(self)@ == (MachineView {
                regs: load_regs(
                    old(self)@.regs,
                    old(self)@.memory,
                    old(self)@.index as int,
                    x as int,
                ),
                index: bulk_index(
                    old(self)@.index,
                    x as int,
                    old(self)@.quirks.index_advances_on_bulk,
                ),
                ..old(self)@
            }),
    {
        let base = self.register_i as usize;
        let mut j: usize = 0;
        while j <= x
            invariant
                j <= x + 1,
                base == old(self)@.index,
                self@ == (MachineView { regs: self@.regs, ..old(self)@ }),
                self@.regs.len() == 16,
                forall|q: int| 0 <= q < j ==> self@.regs[q] == old(self)@.memory[base + q],
                forall|q: int| j <= q < 16 ==> self@.regs[q] == old(self)@.regs[q],
            decreases x + 1 - j,
        {
            self.registers.set(j, self.memory[base + j]);
            j += 1;
        }
        if self.quirks.index_advances_on_bulk {
            self.register_i = ((base + x + 1) % 0x1000) as u16;
        }
        proof {
            assert(self@.regs =~= load_regs(
                old(self)@.regs,
                old(self)@.memory,
                old(self)@.index as int,
                x as int,
            ));
            assert(self@ =~= (MachineView {
                regs: load_regs(
                    old(self)@.regs,
                    old(self)@.memory,
                    old(self)@.index as int,
                    x as int,
                ),
                index: bulk_index(
                    old(self)@.index,
                    x as int,
                    old(self)@.quirks.index_advances_on_bulk,
                ),
                ..old(self)@
            }));
        }
    }

    /// XOR-blit a sprite of `bytes` rows read from memory at `i`, anchored
    /// at (`offset_x`, `offset_y`).  The anchor is reduced modulo the screen
    /// size first; individual pixels then wrap or are clipped according to
    /// the sprite-wrap quirk.  VF reports whether any set pixel was toggled
    /// off.
    #[verifier::loop_isolation(false)]
    pub fn draw_sprite(&mut self, i: u16, bytes: u8, offset_x: u8, offset_y: u8)
        requires
            old(self).wf(),
            bytes <= 15,
            i + bytes <= 4096,
        ensures
            final(self).wf(),
            final(self)@ == (MachineView {
                display: draw_display(
                    old(self)@.display,
                    old(self)@.memory,
                    i as int,
                    bytes as int,
                    offset_x as int % 64,
                    offset_y as int % 32,
                    old(self)@.quirks.sprite_wrap,
                ),
                regs: old(self)@.regs.update(
                    15,
                    flag_if(
                        draw_collision(
                            old(self)@.display,
                            old(self)@.memory,
                            i as int,
                            bytes as int,
                            offset_x as int % 64,
                            offset_y as int % 32,
                            old(self)@.quirks.sprite_wrap,
                        ),
                    ),
                ),
                ..old(self)@
            }),
    {
        let x: usize = (offset_x % 64) as usize;
        let y: usize = (offset_y % 32) as usize;
        let wrap = self.quirks.sprite_wrap;
        let ghost d0 = self@.display;
        let ghost mem0 = self@.memory;
        let ghost ix = i as int;
        let ghost xx = x as int;
        let ghost yy = y as int;
        let mut collision = false;
        let mut k: usize = 0;
        while k < bytes as usize
            invariant
                k <= bytes,
                collision == collision_before(d0, mem0, ix, xx, yy, wrap, k as int, 0),
                self@ == (MachineView { display: self@.display, ..old(self)@ }),
                self@.display.len() == 2048,
                forall|c: int|
                    0 <= c < 2048 ==> self@.display[c] == (d0[c] != sprite_hits_before(
                        mem0,
                        ix,
                        xx,
                        yy,
                        wrap,
                        c,
                        k as int,
                        0,
                    )),
            decreases bytes - k,
        {
            let byte = self.memory[i as usize + k];
            let mut b: usize = 0;
            while b < 8
                invariant
                    b <= 8,
                    k < bytes,
                    byte == mem0[ix + k],
                    collision == collision_before(d0, mem0, ix, xx, yy, wrap, k as int, b as int),
                    self@ == (MachineView { display: self@.display, ..old(self)@ }),
                    self@.display.len() == 2048,
                    forall|c: int|
                        0 <= c < 2048 ==> self@.display[c] == (d0[c] != sprite_hits_before(
                            mem0,
                            ix,
                            xx,
                            yy,
                            wrap,
                            c,
                            k as int,
                            b as int,
                        )),
                decreases 8 - b,
            {
                let weight = bit_weight_exec(b);
                let ghost kk = k as int;
                let ghost bb = b as int;
                if (byte / weight) % 2 == 1 {
                    proof {
                        assert(sprite_bit(mem0[ix + kk], bb));
                    }
                    let in_bounds = y + k < 32 && x + b < 64;
                    if wrap || in_bounds {
                        proof {
                            assert(pixel_drawn(mem0, ix, xx, yy, wrap, kk, bb));
                            lemma_hit_bounds(yy, xx, kk, bb);
                        }
                        let row = (y + k) % 32;
                        let col = (x + b) % 64;
                        let cell = row * 64 + col;
                        proof {
                            assert(cell == cell_at(hit_row(yy, kk), hit_col(xx, bb)));
                            lemma_fresh_cell(mem0, ix, xx, yy, wrap, kk, bb);
                        }
                        let cur = self.pixels[cell];
                        if cur {
                            collision = true;
                        }
                        let toggled = !cur;
                        self.pixels.set(cell, toggled);
                        proof {
                            assert(cur == d0[cell as int]);
                            assert forall|c: int| 0 <= c < 2048 implies self@.display[c] == (
                            d0[c] != sprite_hits_before(
                                mem0,
                                ix,
                                xx,
                                yy,
                                wrap,
                                c,
                                kk,
                                bb + 1,
                            )) by {
                                lemma_hits_prefix_step(mem0, ix, xx, yy, wrap, kk, bb, c);
                            }
                            lemma_collision_prefix_step(d0, mem0, ix, xx, yy, wrap, kk, bb);
                        }
                    } else {
                        proof {
                            assert(!pixel_drawn(mem0, ix, xx, yy, wrap, kk, bb));
                            assert forall|c: int| 0 <= c < 2048 implies self@.display[c] == (
                            d0[c] != sprite_hits_before(
                                mem0,
                                ix,
                                xx,
                                yy,
                                wrap,
                                c,
                                kk,
                                bb + 1,
                            )) by {
                                lemma_hits_prefix_step(mem0, ix, xx, yy, wrap, kk, bb, c);
                            }
                            lemma_collision_prefix_step(d0, mem0, ix, xx, yy, wrap, kk, bb);
                        }
                    }
                } else {
                    proof {
                        assert(!sprite_bit(mem0[ix + kk], bb));
                        assert(!pixel_drawn(mem0, ix, xx, yy, wrap, kk, bb));
                        assert forall|c: int| 0 <= c < 2048 implies self@.display[c] == (
                        d0[c] != sprite_hits_before(mem0, ix, xx, yy, wrap, c, kk, bb + 1)) by {
                            lemma_hits_prefix_step(mem0, ix, xx, yy, wrap, kk, bb, c);
                        }
                        lemma_collision_prefix_step(d0, mem0, ix, xx, yy, wrap, kk, bb);
                    }
                }
                b += 1;
            }
            proof {
                assert forall|c: int| 0 <= c < 2048 implies self@.display[c] == (
                d0[c] != sprite_hits_before(mem0, ix, xx, yy, wrap, c, k as int + 1, 0)) by {
                    lemma_prefix_row(mem0, ix, xx, yy, wrap, k as int, c);
                }
                lemma_collision_row(d0, mem0, ix, xx, yy, wrap, k as int);
            }
            k += 1;
        }
        let flag: u8 = if collision {
            1
        } else {
            0
        };
        self.registers.set(15, flag);
        proof {
            let n = bytes as int;
            assert forall|c: int| 0 <= c < 2048 implies self@.display[c] == draw_display(
                d0,
                mem0,
                ix,
                n,
                xx,
                yy,
                wrap,
            )[c] by {
                lemma_prefix_full(mem0, ix, n, xx, yy, wrap, c);
            }
            assert(self@.display =~= draw_display(d0, mem0, ix, n, xx, yy, wrap));
            lemma_collision_full(d0, mem0, ix, n, xx, yy, wrap);
            assert(collision == draw_collision(d0, mem0, ix, n, xx, yy, wrap));
            assert(self@ =~= (MachineView {
                display: draw_display(d0, mem0, ix, n, xx, yy, wrap),
                regs: old(self)@.regs.update(
                    15,
                    flag_if(draw_collision(d0, mem0, ix, n, xx, yy, wrap)),
                ),
                ..old(self)@
            }));
        }
    }

    /// How many return addresses the call stack currently holds.
    pub fn stack_depth(&self) -> (r: usize)
        ensures
            r == self@.stack.len(),
    {
        self.stack.len()
    }

    /// The configured behaviour variants.
    pub fn quirk_config(&self) -> (q: Quirks)
        ensures
            q == self@.quirks,
    {
        self.quirks
    }
}

} // verus!
