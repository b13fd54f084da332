use vstd::prelude::*;

verus! {

/// Cell `(r, c)` of the 4x4 square made of four 2x2 tiles in reading order.
pub open spec fn tile_bit(a: [bool; 4], b: [bool; 4], c: [bool; 4], d: [bool; 4], r: int, col: int) -> bool {
    let t = if r < 2 {
        if col < 2 { a } else { b }
    } else {
        if col < 2 { c } else { d }
    };
    t@[(r % 2) * 2 + col % 2]
}

pub open spec fn count(x: bool) -> int {
    if x { 1 } else { 0 }
}

/// The number of live cells among the eight neighbours of `(r, c)`.
pub open spec fn neighbours(a: [bool; 4], b: [bool; 4], c: [bool; 4], d: [bool; 4], r: int, col: int) -> int {
    count(tile_bit(a, b, c, d, r - 1, col - 1)) + count(tile_bit(a, b, c, d, r - 1, col))
        + count(tile_bit(a, b, c, d, r - 1, col + 1)) + count(tile_bit(a, b, c, d, r, col - 1))
        + count(tile_bit(a, b, c, d, r, col + 1)) + count(tile_bit(a, b, c, d, r + 1, col - 1))
        + count(tile_bit(a, b, c, d, r + 1, col)) + count(tile_bit(a, b, c, d, r + 1, col + 1))
}

/// The B3/S23 rule: cell `(r, c)` of the 4x4 square one generation later.
pub open spec fn next_state(a: [bool; 4], b: [bool; 4], c: [bool; 4], d: [bool; 4], r: int, col: int) -> bool {
    let n = neighbours(a, b, c, d, r, col);
    n == 3 || (tile_bit(a, b, c, d, r, col) && n == 2)
}

/// The inner 2x2 of the 4x4 square one generation later, in reading order.
pub open spec fn step_tile(a: [bool; 4], b: [bool; 4], c: [bool; 4], d: [bool; 4]) -> Seq<bool> {
    seq![
        next_state(a, b, c, d, 1, 1),
        next_state(a, b, c, d, 1, 2),
        next_state(a, b, c, d, 2, 1),
        next_state(a, b, c, d, 2, 2),
    ]
}

/// The number of live cells among the eight neighbours of `(r, c)` on the
/// plane `f`.
pub open spec fn live_neighbours(f: spec_fn(int, int) -> bool, r: int, c: int) -> int {
    count(f(r - 1, c - 1)) + count(f(r - 1, c)) + count(f(r - 1, c + 1)) + count(f(r, c - 1))
        + count(f(r, c + 1)) + count(f(r + 1, c - 1)) + count(f(r + 1, c)) + count(f(r + 1, c + 1))
}

/// The plane `f` one generation later, under B3/S23.
pub open spec fn next_gen(f: spec_fn(int, int) -> bool) -> spec_fn(int, int) -> bool {
    |r: int, c: int|
        {
            let n = live_neighbours(f, r, c);
            n == 3 || (f(r, c) && n == 2)
        }
}

/// The plane `f` after `t` generations.
pub open spec fn generations(f: spec_fn(int, int) -> bool, t: nat) -> spec_fn(int, int) -> bool
    decreases t,
{
    if t == 0 {
        f
    } else {
        next_gen(generations(f, (t - 1) as nat))
    }
}

/// `a` generations and then `b` more are `a + b` generations.
pub proof fn lemma_generations_add(f: spec_fn(int, int) -> bool, a: nat, b: nat)
    ensures
        generations(generations(f, a), b) == generations(f, a + b),
    decreases b,
{
    if b > 0 {
        lemma_generations_add(f, a, (b - 1) as nat);
        assert(generations(f, a + b) == next_gen(generations(f, (a + b - 1) as nat)));
    }
}

/// Every live cell of `f` lies in the square `[lo, hi)` x `[lo, hi)`.
pub open spec fn dead_outside(f: spec_fn(int, int) -> bool, lo: int, hi: int) -> bool {
    forall|r: int, c: int| !(lo <= r < hi && lo <= c < hi) ==> !#[trigger] f(r, c)
}

/// Nothing moves faster than one cell per generation.
pub proof fn lemma_light_cone(f: spec_fn(int, int) -> bool, lo: int, hi: int, t: nat)
    requires
        dead_outside(f, lo, hi),
    ensures
        dead_outside(generations(f, t), lo - t, hi + t),
    decreases t,
{
    if t > 0 {
        let g = generations(f, (t - 1) as nat);
        lemma_light_cone(f, lo, hi, (t - 1) as nat);
        assert forall|r: int, c: int| !(lo - t <= r < hi + t && lo - t <= c < hi + t) implies !#[trigger] generations(
            f,
            t,
        )(r, c) by {
            assert(!g(r - 1, c - 1) && !g(r - 1, c) && !g(r - 1, c + 1));
            assert(!g(r, c - 1) && !g(r, c) && !g(r, c + 1));
            assert(!g(r + 1, c - 1) && !g(r + 1, c) && !g(r + 1, c + 1));
        }
    }
}

/// The plane `f` moved by `(dr, dc)`: cell `(r, c)` of the result is cell
/// `(r + dr, c + dc)` of `f`.
pub open spec fn shifted(f: spec_fn(int, int) -> bool, dr: int, dc: int) -> spec_fn(int, int) -> bool {
    |r: int, c: int| f(r + dr, c + dc)
}

/// The rule is the same everywhere: moving a plane and running it commute.
pub proof fn lemma_generations_shift(f: spec_fn(int, int) -> bool, dr: int, dc: int, t: nat)
    ensures
        generations(shifted(f, dr, dc), t) == shifted(generations(f, t), dr, dc),
    decreases t,
{
    if t > 0 {
        lemma_generations_shift(f, dr, dc, (t - 1) as nat);
        let g = generations(f, (t - 1) as nat);
        assert forall|r: int, c: int| #[trigger] generations(shifted(f, dr, dc), t)(r, c) == shifted(generations(f, t), dr, dc)(r, c) by {
            assert(live_neighbours(shifted(g, dr, dc), r, c) == live_neighbours(g, r + dr, c + dc)) by {
                assert(shifted(g, dr, dc)(r - 1, c - 1) == g(r + dr - 1, c + dc - 1));
                assert(shifted(g, dr, dc)(r - 1, c) == g(r + dr - 1, c + dc));
                assert(shifted(g, dr, dc)(r - 1, c + 1) == g(r + dr - 1, c + dc + 1));
                assert(shifted(g, dr, dc)(r, c - 1) == g(r + dr, c + dc - 1));
                assert(shifted(g, dr, dc)(r, c + 1) == g(r + dr, c + dc + 1));
                assert(shifted(g, dr, dc)(r + 1, c - 1) == g(r + dr + 1, c + dc - 1));
                assert(shifted(g, dr, dc)(r + 1, c) == g(r + dr + 1, c + dc));
                assert(shifted(g, dr, dc)(r + 1, c + 1) == g(r + dr + 1, c + dc + 1));
            }
        }
        assert(generations(shifted(f, dr, dc), t) =~= shifted(generations(f, t), dr, dc));
    } else {
        assert(generations(shifted(f, dr, dc), 0) =~= shifted(generations(f, 0), dr, dc));
    }
}

fn bit(a: &[bool; 4], b: &[bool; 4], c: &[bool; 4], d: &[bool; 4], r: usize, col: usize) -> (x: bool)
    requires
        r < 4,
        col < 4,
    ensures
        x == tile_bit(*a, *b, *c, *d, r as int, col as int),
{
    let t = if r < 2 {
        if col < 2 { a } else { b }
    } else {
        if col < 2 { c } else { d }
    };
    t[(r % 2) * 2 + col % 2]
}

fn next_at(a: &[bool; 4], b: &[bool; 4], c: &[bool; 4], d: &[bool; 4], r: usize, col: usize) -> (x: bool)
    requires
        1 <= r <= 2,
        1 <= col <= 2,
    ensures
        x == next_state(*a, *b, *c, *d, r as int, col as int),
{
    let mut n: u8 = 0;
    if bit(a, b, c, d, r - 1, col - 1) { n = n + 1; }
    if bit(a, b, c, d, r - 1, col) { n = n + 1; }
    if bit(a, b, c, d, r - 1, col + 1) { n = n + 1; }
    if bit(a, b, c, d, r, col - 1) { n = n + 1; }
    if bit(a, b, c, d, r, col + 1) { n = n + 1; }
    if bit(a, b, c, d, r + 1, col - 1) { n = n + 1; }
    if bit(a, b, c, d, r + 1, col) { n = n + 1; }
    if bit(a, b, c, d, r + 1, col + 1) { n = n + 1; }
    n == 3 || (bit(a, b, c, d, r, col) && n == 2)
}

/// One generation of the inner 2x2 of the square made of four tiles.
pub fn leaf_step(a: &[bool; 4], b: &[bool; 4], c: &[bool; 4], d: &[bool; 4]) -> (t: [bool; 4])
    ensures
        t@ == step_tile(*a, *b, *c, *d),
{
    let t = [
        next_at(a, b, c, d, 1, 1),
        next_at(a, b, c, d, 1, 2),
        next_at(a, b, c, d, 2, 1),
        next_at(a, b, c, d, 2, 2),
    ];
    assert(t@ =~= step_tile(*a, *b, *c, *d));
    t
}

} // verus!
