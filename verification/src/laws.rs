//! Laws of the instruction set, stated over the machine model and proved
//! once and for all: invariant preservation, immediate load/add, the carry
//! flag, the XOR blit, collision detection, waiting for a key, and the
//! call/return round trip.

use vstd::prelude::*;

use crate::model::{
    fetch_instr, fetch_pc, first_pressed_from, flag_if, lemma_first_pressed_found,
    lemma_first_pressed_none, lemma_step_is_execute, op_hi, op_n, op_nn, op_nnn, op_x, op_y,
    spec_execute, spec_step, Chip8Error, MachineView,
};
use crate::sprite::{
    cell_at, draw_collision, draw_display, hit_col, hit_row, lemma_hit_bounds, pixel_drawn,
};

verus! {

/// Stepping preserves well-formedness: every state a well-formed machine can
/// reach is well-formed.
#[verifier::rlimit(100)]
pub proof fn lemma_step_preserves_wf(m: MachineView, rand: u8)
    requires
        m.wf(),
    ensures
        spec_step(m, rand) matches Ok(m2) ==> m2.wf(),
{
    reveal(crate::model::spec_execute);
}

/// Loading an immediate and then adding an immediate leaves the target
/// register holding the wrapped sum of the two immediates, and has no other
/// effect: in particular no flag is written.
pub proof fn lemma_set_then_add(m: MachineView, set_instr: u16, add_instr: u16, r1: u8, r2: u8)
    requires
        m.wf(),
        op_hi(set_instr) == 0x6,
        op_hi(add_instr) == 0x7,
        op_x(add_instr) == op_x(set_instr),
    ensures
        spec_execute(m, set_instr, r1) matches Ok(m1) && spec_execute(m1, add_instr, r2) matches Ok(
            m2,
        ) && m2.regs[op_x(set_instr)] == (op_nn(set_instr) + op_nn(add_instr)) % 256 && (forall|
            j: int,
        |
            0 <= j < 16 && j != op_x(set_instr) ==> m2.regs[j] == m.regs[j]) && m2
            == (MachineView { regs: m2.regs, ..m }),
{
    reveal(crate::model::spec_execute);
}

/// The add-with-carry instruction: VF reports exactly whether the byte sum
/// exceeds 255, and the register takes the wrapped sum (whenever the target
/// is not VF itself, which the flag write overwrites).
pub proof fn lemma_add_with_carry(m: MachineView, instr: u16, rand: u8)
    requires
        m.wf(),
        op_hi(instr) == 0x8,
        op_n(instr) == 0x4,
    ensures
        spec_execute(m, instr, rand) matches Ok(m2) && m2.regs[15] == flag_if(
            m.regs[op_x(instr)] + m.regs[op_y(instr)] > 255,
        ) && (op_x(instr) != 15 ==> m2.regs[op_x(instr)] == (m.regs[op_x(instr)]
            + m.regs[op_y(instr)]) % 256),
{
    reveal(crate::model::spec_execute);
}

/// Drawing is an XOR blit: drawing the same sprite at the same anchor twice,
/// with no other change in between, restores the framebuffer exactly.
pub proof fn lemma_draw_involution(
    d: Seq<bool>,
    mem: Seq<u8>,
    i: int,
    n: int,
    x: int,
    y: int,
    wrap: bool,
)
    ensures
        draw_display(draw_display(d, mem, i, n, x, y, wrap), mem, i, n, x, y, wrap) == d,
{
    let d1 = draw_display(d, mem, i, n, x, y, wrap);
    let d2 = draw_display(d1, mem, i, n, x, y, wrap);
    assert(d2 =~= d);
}

/// Drawing into an all-clear framebuffer never collides.
pub proof fn lemma_draw_no_collision_when_clear(
    d: Seq<bool>,
    mem: Seq<u8>,
    i: int,
    n: int,
    x: int,
    y: int,
    wrap: bool,
)
    requires
        d.len() == 2048,
        0 <= x < 64,
        0 <= y < 32,
        forall|c: int| 0 <= c < 2048 ==> !d[c],
    ensures
        !draw_collision(d, mem, i, n, x, y, wrap),
{
    if draw_collision(d, mem, i, n, x, y, wrap) {
        let (k, b) = choose|k: int, b: int|
            0 <= k < n && 0 <= b < 8 && #[trigger] pixel_drawn(mem, i, x, y, wrap, k, b)
                && d[cell_at(hit_row(y, k), hit_col(x, b))];
        lemma_hit_bounds(y, x, k, b);
        assert(false);
    }
}

/// A drawn sprite pixel landing on an already-set pixel makes the draw
/// collide.
pub proof fn lemma_draw_collision_on_overlap(
    d: Seq<bool>,
    mem: Seq<u8>,
    i: int,
    n: int,
    x: int,
    y: int,
    wrap: bool,
    k: int,
    b: int,
)
    requires
        0 <= k < n,
        0 <= b < 8,
        pixel_drawn(mem, i, x, y, wrap, k, b),
        d[cell_at(hit_row(y, k), hit_col(x, b))],
    ensures
        draw_collision(d, mem, i, n, x, y, wrap),
{
}

/// At the instruction level the draw writes the new framebuffer and puts the
/// collision flag in VF: 1 when the draw collides, 0 otherwise.
pub proof fn lemma_draw_sets_flag(m: MachineView, instr: u16, rand: u8)
    requires
        m.wf(),
        op_hi(instr) == 0xD,
        m.index + op_n(instr) <= 4096,
    ensures
        spec_execute(m, instr, rand) matches Ok(m2) && m2.regs[15] == flag_if(
            draw_collision(
                m.display,
                m.memory,
                m.index as int,
                op_n(instr) as int,
                m.regs[op_x(instr)] as int % 64,
                m.regs[op_y(instr)] as int % 32,
                m.quirks.sprite_wrap,
            ),
        ) && m2.display == draw_display(
            m.display,
            m.memory,
            m.index as int,
            op_n(instr) as int,
            m.regs[op_x(instr)] as int % 64,
            m.regs[op_y(instr)] as int % 32,
            m.quirks.sprite_wrap,
        ),
{
    reveal(crate::model::spec_execute);
    assert((m.regs[op_x(instr)] % 64) as int == m.regs[op_x(instr)] as int % 64);
    assert((m.regs[op_y(instr)] % 32) as int == m.regs[op_y(instr)] as int % 32);
}

/// The wait-for-key instruction: while no key is pressed a whole cycle
/// leaves the machine exactly as it was (no net program-counter advance, no
/// register touched); once some key is pressed the cycle advances normally
/// and stores the lowest pressed key's index in VX.
pub proof fn lemma_wait_for_key(m: MachineView, rand: u8)
    requires
        m.wf(),
        m.pc + 1 < 4096,
        op_hi(fetch_instr(m)) == 0xF,
        op_nn(fetch_instr(m)) == 0x0A,
    ensures
        (forall|j: int| 0 <= j < 16 ==> !m.keys[j]) ==> spec_step(m, rand) == Ok::<
            MachineView,
            Chip8Error,
        >(m),
        (exists|j: int| 0 <= j < 16 && m.keys[j]) ==> (first_pressed_from(m.keys, 0) matches Some(
            k,
        ) && m.keys[k] && (forall|j: int| 0 <= j < k ==> !m.keys[j]) && spec_step(m, rand) == Ok::<
            MachineView,
            Chip8Error,
        >((MachineView { pc: (m.pc + 2) as u16, regs: m.regs.update(op_x(fetch_instr(m)), k as u8), ..m }))),
{
    reveal(crate::model::spec_execute);
    lemma_step_is_execute(m, rand);
    let m1 = MachineView { pc: (m.pc + 2) as u16, ..m };
    if forall|j: int| 0 <= j < 16 ==> !m.keys[j] {
        lemma_first_pressed_none(m.keys, 0);
        assert(fetch_pc(m1) == m.pc);
        assert((MachineView { pc: fetch_pc(m1), ..m1 }) =~= m);
    } else {
        lemma_first_pressed_found(m.keys, 0);
    }
}

/// The call/return round trip: a call pushes the address of the instruction
/// after itself and jumps; a later return executed with that stack restores
/// the program counter to that address and the stack to what it held before
/// the call.
pub proof fn lemma_call_return(m: MachineView, rand1: u8, later: MachineView, rand2: u8)
    requires
        m.wf(),
        later.wf(),
        m.pc + 1 < 4096,
        op_hi(fetch_instr(m)) == 0x2,
        m.stack.len() < m.stack_cap,
        later.pc + 1 < 4096,
        fetch_instr(later) == 0x00EE,
        later.stack == m.stack.push((m.pc + 2) as u16),
    ensures
        spec_step(m, rand1) matches Ok(m1) && m1.pc == op_nnn(fetch_instr(m)) && m1.stack
            == m.stack.push((m.pc + 2) as u16),
        spec_step(later, rand2) matches Ok(m2) && m2.pc == m.pc + 2 && m2.stack == m.stack,
{
    reveal(crate::model::spec_execute);
    lemma_step_is_execute(m, rand1);
    lemma_step_is_execute(later, rand2);
    assert(later.stack.last() == (m.pc + 2) as u16);
    assert(later.stack.drop_last() =~= m.stack);
}

} // verus!
