//! Specification of the XOR sprite compositor: which framebuffer cells a
//! sprite toggles, and when a draw collides with an already-set pixel.

use vstd::prelude::*;

verus! {

/// Weight of sprite bit `b` (0 = leftmost, most significant) within a row byte.
pub open spec fn bit_weight(b: int) -> int {
    if b == 0 {
        128
    } else if b == 1 {
        64
    } else if b == 2 {
        32
    } else if b == 3 {
        16
    } else if b == 4 {
        8
    } else if b == 5 {
        4
    } else if b == 6 {
        2
    } else {
        1
    }
}

/// Whether bit `b` (leftmost first) of a sprite row byte is set.
pub open spec fn sprite_bit(byte: u8, b: int) -> bool {
    (byte as int / bit_weight(b)) % 2 == 1
}

/// Row-major framebuffer cell holding pixel (row, col).
pub open spec fn cell_at(row: int, col: int) -> int {
    row * 64 + col
}

/// Screen row hit by sprite row `k` of a sprite anchored at `y`.
pub open spec fn hit_row(y: int, k: int) -> int {
    (y + k) % 32
}

/// Screen column hit by sprite bit `b` of a sprite anchored at `x`.
pub open spec fn hit_col(x: int, b: int) -> int {
    (x + b) % 64
}

/// Whether sprite pixel (row `k`, bit `b`) is drawn at all: its bit is set
/// and, when wrapping is off, it lies inside the 64x32 screen.
pub open spec fn pixel_drawn(
    mem: Seq<u8>,
    i: int,
    x: int,
    y: int,
    wrap: bool,
    k: int,
    b: int,
) -> bool {
    &&& sprite_bit(mem[i + k], b)
    &&& (wrap || (y + k < 32 && x + b < 64))
}

/// Whether the sprite of `n` rows at memory address `i`, anchored at (x, y),
/// toggles framebuffer cell `cell`.
pub open spec fn sprite_hits(
    mem: Seq<u8>,
    i: int,
    n: int,
    x: int,
    y: int,
    wrap: bool,
    cell: int,
) -> bool {
    exists|k: int, b: int|
        0 <= k < n && 0 <= b < 8 && #[trigger] pixel_drawn(mem, i, x, y, wrap, k, b) && cell
            == cell_at(hit_row(y, k), hit_col(x, b))
}

/// The framebuffer after XOR-blitting the sprite: each hit cell is toggled.
pub open spec fn draw_display(
    d: Seq<bool>,
    mem: Seq<u8>,
    i: int,
    n: int,
    x: int,
    y: int,
    wrap: bool,
) -> Seq<bool> {
    Seq::new(d.len(), |cell: int| d[cell] != sprite_hits(mem, i, n, x, y, wrap, cell))
}

/// Whether the draw toggles some already-set pixel off (the collision flag).
pub open spec fn draw_collision(
    d: Seq<bool>,
    mem: Seq<u8>,
    i: int,
    n: int,
    x: int,
    y: int,
    wrap: bool,
) -> bool {
    exists|k: int, b: int|
        0 <= k < n && 0 <= b < 8 && #[trigger] pixel_drawn(mem, i, x, y, wrap, k, b) && d[cell_at(
            hit_row(y, k),
            hit_col(x, b),
        )]
}

/// Pairs (k2, b2) strictly before (k, b) in row-major drawing order.
pub open spec fn order_before(k2: int, b2: int, k: int, b: int) -> bool {
    k2 < k || (k2 == k && b2 < b)
}

/// Whether some sprite pixel drawn strictly before position (k, b) toggles
/// `cell`.
pub open spec fn sprite_hits_before(
    mem: Seq<u8>,
    i: int,
    x: int,
    y: int,
    wrap: bool,
    cell: int,
    k: int,
    b: int,
) -> bool {
    exists|k2: int, b2: int|
        0 <= k2 && 0 <= b2 < 8 && order_before(k2, b2, k, b) && #[trigger] pixel_drawn(
            mem,
            i,
            x,
            y,
            wrap,
            k2,
            b2,
        ) && cell == cell_at(hit_row(y, k2), hit_col(x, b2))
}

/// Whether some sprite pixel drawn strictly before position (k, b) lands on
/// a pixel set in `d`.
pub open spec fn collision_before(
    d: Seq<bool>,
    mem: Seq<u8>,
    i: int,
    x: int,
    y: int,
    wrap: bool,
    k: int,
    b: int,
) -> bool {
    exists|k2: int, b2: int|
        0 <= k2 && 0 <= b2 < 8 && order_before(k2, b2, k, b) && #[trigger] pixel_drawn(
            mem,
            i,
            x,
            y,
            wrap,
            k2,
            b2,
        ) && d[cell_at(hit_row(y, k2), hit_col(x, b2))]
}

/// Every hit row and column lies on the screen, so every hit cell is a real
/// framebuffer index.
pub proof fn lemma_hit_bounds(y: int, x: int, k: int, b: int)
    requires
        0 <= y < 32,
        0 <= x < 64,
        0 <= k,
        0 <= b,
    ensures
        0 <= hit_row(y, k) < 32,
        0 <= hit_col(x, b) < 64,
        0 <= cell_at(hit_row(y, k), hit_col(x, b)) < 2048,
{
}

/// Two distinct sprite pixels of one draw never land on the same cell: with
/// at most 16 rows and 8 columns, the wrapped rows and columns are distinct.
pub proof fn lemma_target_unique(y: int, x: int, k1: int, b1: int, k2: int, b2: int)
    requires
        0 <= y < 32,
        0 <= x < 64,
        0 <= k1 < 16,
        0 <= b1 < 8,
        0 <= k2 < 16,
        0 <= b2 < 8,
        cell_at(hit_row(y, k1), hit_col(x, b1)) == cell_at(hit_row(y, k2), hit_col(x, b2)),
    ensures
        k1 == k2,
        b1 == b2,
{
    assert(hit_row(y, k1) == if y + k1 < 32 {
        y + k1
    } else {
        y + k1 - 32
    });
    assert(hit_row(y, k2) == if y + k2 < 32 {
        y + k2
    } else {
        y + k2 - 32
    });
    assert(hit_col(x, b1) == if x + b1 < 64 {
        x + b1
    } else {
        x + b1 - 64
    });
    assert(hit_col(x, b2) == if x + b2 < 64 {
        x + b2
    } else {
        x + b2 - 64
    });
    lemma_hit_bounds(y, x, k1, b1);
    lemma_hit_bounds(y, x, k2, b2);
    assert(hit_row(y, k1) == hit_row(y, k2) && hit_col(x, b1) == hit_col(x, b2));
}

/// The cell that pixel (k, b) hits was not toggled by any earlier pixel.
pub proof fn lemma_fresh_cell(mem: Seq<u8>, i: int, x: int, y: int, wrap: bool, k: int, b: int)
    requires
        0 <= y < 32,
        0 <= x < 64,
        0 <= k < 16,
        0 <= b < 8,
    ensures
        !sprite_hits_before(mem, i, x, y, wrap, cell_at(hit_row(y, k), hit_col(x, b)), k, b),
{
    let cell = cell_at(hit_row(y, k), hit_col(x, b));
    if sprite_hits_before(mem, i, x, y, wrap, cell, k, b) {
        let (k2, b2) = choose|k2: int, b2: int|
            0 <= k2 && 0 <= b2 < 8 && order_before(k2, b2, k, b) && #[trigger] pixel_drawn(
                mem,
                i,
                x,
                y,
                wrap,
                k2,
                b2,
            ) && cell == cell_at(hit_row(y, k2), hit_col(x, b2));
        lemma_target_unique(y, x, k, b, k2, b2);
        assert(false);
    }
}

/// Advancing the drawing position by one bit adds exactly pixel (k, b) to
/// the set of drawn pixels.
pub proof fn lemma_hits_prefix_step(
    mem: Seq<u8>,
    i: int,
    x: int,
    y: int,
    wrap: bool,
    k: int,
    b: int,
    c: int,
)
    requires
        0 <= b < 8,
    ensures
        sprite_hits_before(mem, i, x, y, wrap, c, k, b + 1) == (sprite_hits_before(
            mem,
            i,
            x,
            y,
            wrap,
            c,
            k,
            b,
        ) || (0 <= k && pixel_drawn(mem, i, x, y, wrap, k, b) && c == cell_at(
            hit_row(y, k),
            hit_col(x, b),
        ))),
{
    if sprite_hits_before(mem, i, x, y, wrap, c, k, b + 1) {
        let (k2, b2) = choose|k2: int, b2: int|
            0 <= k2 && 0 <= b2 < 8 && order_before(k2, b2, k, b + 1) && #[trigger] pixel_drawn(
                mem,
                i,
                x,
                y,
                wrap,
                k2,
                b2,
            ) && c == cell_at(hit_row(y, k2), hit_col(x, b2));
        if k2 == k && b2 == b {
        } else {
            assert(order_before(k2, b2, k, b));
            assert(sprite_hits_before(mem, i, x, y, wrap, c, k, b));
        }
    }
    if sprite_hits_before(mem, i, x, y, wrap, c, k, b) {
        let (k2, b2) = choose|k2: int, b2: int|
            0 <= k2 && 0 <= b2 < 8 && order_before(k2, b2, k, b) && #[trigger] pixel_drawn(
                mem,
                i,
                x,
                y,
                wrap,
                k2,
                b2,
            ) && c == cell_at(hit_row(y, k2), hit_col(x, b2));
        assert(order_before(k2, b2, k, b + 1));
        assert(sprite_hits_before(mem, i, x, y, wrap, c, k, b + 1));
    }
    if 0 <= k && pixel_drawn(mem, i, x, y, wrap, k, b) && c == cell_at(
        hit_row(y, k),
        hit_col(x, b),
    ) {
        assert(order_before(k, b, k, b + 1));
        assert(sprite_hits_before(mem, i, x, y, wrap, c, k, b + 1));
    }
}

/// The same step, for the collision predicate.
pub proof fn lemma_collision_prefix_step(
    d: Seq<bool>,
    mem: Seq<u8>,
    i: int,
    x: int,
    y: int,
    wrap: bool,
    k: int,
    b: int,
)
    requires
        0 <= b < 8,
    ensures
        collision_before(d, mem, i, x, y, wrap, k, b + 1) == (collision_before(
            d,
            mem,
            i,
            x,
            y,
            wrap,
            k,
            b,
        ) || (0 <= k && pixel_drawn(mem, i, x, y, wrap, k, b) && d[cell_at(
            hit_row(y, k),
            hit_col(x, b),
        )])),
{
    if collision_before(d, mem, i, x, y, wrap, k, b + 1) {
        let (k2, b2) = choose|k2: int, b2: int|
            0 <= k2 && 0 <= b2 < 8 && order_before(k2, b2, k, b + 1) && #[trigger] pixel_drawn(
                mem,
                i,
                x,
                y,
                wrap,
                k2,
                b2,
            ) && d[cell_at(hit_row(y, k2), hit_col(x, b2))];
        if k2 == k && b2 == b {
        } else {
            assert(order_before(k2, b2, k, b));
            assert(collision_before(d, mem, i, x, y, wrap, k, b));
        }
    }
    if collision_before(d, mem, i, x, y, wrap, k, b) {
        let (k2, b2) = choose|k2: int, b2: int|
            0 <= k2 && 0 <= b2 < 8 && order_before(k2, b2, k, b) && #[trigger] pixel_drawn(
                mem,
                i,
                x,
                y,
                wrap,
                k2,
                b2,
            ) && d[cell_at(hit_row(y, k2), hit_col(x, b2))];
        assert(order_before(k2, b2, k, b + 1));
        assert(collision_before(d, mem, i, x, y, wrap, k, b + 1));
    }
    if 0 <= k && pixel_drawn(mem, i, x, y, wrap, k, b) && d[cell_at(hit_row(y, k), hit_col(x, b))] {
        assert(order_before(k, b, k, b + 1));
        assert(collision_before(d, mem, i, x, y, wrap, k, b + 1));
    }
}

/// Finishing row k at bit 8 is the same drawing position as starting row
/// k + 1 at bit 0.
pub proof fn lemma_prefix_row(mem: Seq<u8>, i: int, x: int, y: int, wrap: bool, k: int, c: int)
    ensures
        sprite_hits_before(mem, i, x, y, wrap, c, k, 8) == sprite_hits_before(
            mem,
            i,
            x,
            y,
            wrap,
            c,
            k + 1,
            0,
        ),
{
    if sprite_hits_before(mem, i, x, y, wrap, c, k, 8) {
        let (k2, b2) = choose|k2: int, b2: int|
            0 <= k2 && 0 <= b2 < 8 && order_before(k2, b2, k, 8) && #[trigger] pixel_drawn(
                mem,
                i,
                x,
                y,
                wrap,
                k2,
                b2,
            ) && c == cell_at(hit_row(y, k2), hit_col(x, b2));
        assert(order_before(k2, b2, k + 1, 0));
        assert(sprite_hits_before(mem, i, x, y, wrap, c, k + 1, 0));
    }
    if sprite_hits_before(mem, i, x, y, wrap, c, k + 1, 0) {
        let (k2, b2) = choose|k2: int, b2: int|
            0 <= k2 && 0 <= b2 < 8 && order_before(k2, b2, k + 1, 0) && #[trigger] pixel_drawn(
                mem,
                i,
                x,
                y,
                wrap,
                k2,
                b2,
            ) && c == cell_at(hit_row(y, k2), hit_col(x, b2));
        assert(order_before(k2, b2, k, 8));
        assert(sprite_hits_before(mem, i, x, y, wrap, c, k, 8));
    }
}

/// The collision analogue of `lemma_prefix_row`.
pub proof fn lemma_collision_row(
    d: Seq<bool>,
    mem: Seq<u8>,
    i: int,
    x: int,
    y: int,
    wrap: bool,
    k: int,
)
    ensures
        collision_before(d, mem, i, x, y, wrap, k, 8) == collision_before(
            d,
            mem,
            i,
            x,
            y,
            wrap,
            k + 1,
            0,
        ),
{
    if collision_before(d, mem, i, x, y, wrap, k, 8) {
        let (k2, b2) = choose|k2: int, b2: int|
            0 <= k2 && 0 <= b2 < 8 && order_before(k2, b2, k, 8) && #[trigger] pixel_drawn(
                mem,
                i,
                x,
                y,
                wrap,
                k2,
                b2,
            ) && d[cell_at(hit_row(y, k2), hit_col(x, b2))];
        assert(order_before(k2, b2, k + 1, 0));
        assert(collision_before(d, mem, i, x, y, wrap, k + 1, 0));
    }
    if collision_before(d, mem, i, x, y, wrap, k + 1, 0) {
        let (k2, b2) = choose|k2: int, b2: int|
            0 <= k2 && 0 <= b2 < 8 && order_before(k2, b2, k + 1, 0) && #[trigger] pixel_drawn(
                mem,
                i,
                x,
                y,
                wrap,
                k2,
                b2,
            ) && d[cell_at(hit_row(y, k2), hit_col(x, b2))];
        assert(order_before(k2, b2, k, 8));
        assert(collision_before(d, mem, i, x, y, wrap, k, 8));
    }
}

/// Having drawn every pixel before position (n, 0) is having drawn the whole
/// n-row sprite.
pub proof fn lemma_prefix_full(
    mem: Seq<u8>,
    i: int,
    n: int,
    x: int,
    y: int,
    wrap: bool,
    c: int,
)
    ensures
        sprite_hits_before(mem, i, x, y, wrap, c, n, 0) == sprite_hits(mem, i, n, x, y, wrap, c),
{
    if sprite_hits_before(mem, i, x, y, wrap, c, n, 0) {
        let (k2, b2) = choose|k2: int, b2: int|
            0 <= k2 && 0 <= b2 < 8 && order_before(k2, b2, n, 0) && #[trigger] pixel_drawn(
                mem,
                i,
                x,
                y,
                wrap,
                k2,
                b2,
            ) && c == cell_at(hit_row(y, k2), hit_col(x, b2));
        assert(sprite_hits(mem, i, n, x, y, wrap, c));
    }
    if sprite_hits(mem, i, n, x, y, wrap, c) {
        let (k2, b2) = choose|k2: int, b2: int|
            0 <= k2 < n && 0 <= b2 < 8 && #[trigger] pixel_drawn(mem, i, x, y, wrap, k2, b2) && c
                == cell_at(hit_row(y, k2), hit_col(x, b2));
        assert(order_before(k2, b2, n, 0));
        assert(sprite_hits_before(mem, i, x, y, wrap, c, n, 0));
    }
}

/// The collision analogue of `lemma_prefix_full`.
pub proof fn lemma_collision_full(
    d: Seq<bool>,
    mem: Seq<u8>,
    i: int,
    n: int,
    x: int,
    y: int,
    wrap: bool,
)
    ensures
        collision_before(d, mem, i, x, y, wrap, n, 0) == draw_collision(d, mem, i, n, x, y, wrap),
{
    if collision_before(d, mem, i, x, y, wrap, n, 0) {
        let (k2, b2) = choose|k2: int, b2: int|
            0 <= k2 && 0 <= b2 < 8 && order_before(k2, b2, n, 0) && #[trigger] pixel_drawn(
                mem,
                i,
                x,
                y,
                wrap,
                k2,
                b2,
            ) && d[cell_at(hit_row(y, k2), hit_col(x, b2))];
        assert(draw_collision(d, mem, i, n, x, y, wrap));
    }
    if draw_collision(d, mem, i, n, x, y, wrap) {
        let (k2, b2) = choose|k2: int, b2: int|
            0 <= k2 < n && 0 <= b2 < 8 && #[trigger] pixel_drawn(mem, i, x, y, wrap, k2, b2)
                && d[cell_at(hit_row(y, k2), hit_col(x, b2))];
        assert(order_before(k2, b2, n, 0));
        assert(collision_before(d, mem, i, x, y, wrap, n, 0));
    }
}

} // verus!
