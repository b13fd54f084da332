use vstd::prelude::*;
use crate::cell::{trim_of, DEAD_BASE};
use crate::life::{
    generations, lemma_generations_add, lemma_generations_shift, next_gen, next_state, shifted,
    step_tile, tile_bit,
};
use crate::world::{
    agrees, alive_m, evolves, bits, alive, dead, depth, extends, fits, grid_of, input_at, lemma_node, nodes_wf, quad, render, render_row, side, tile,
    two_pow, LEAVES,
};

verus! {

/// Interning: a branch built from the same four children as one built
/// earlier, in the same world grown since, is that earlier branch.
pub proof fn lemma_interning(
    s1: Seq<crate::cell::Cell>,
    s2: Seq<crate::cell::Cell>,
    h1: usize,
    h2: usize,
)
    requires
        nodes_wf(s2),
        extends(s1, s2),
        LEAVES <= h1 < s1.len(),
        LEAVES <= h2 < s2.len(),
        quad(s1, h1 as int) == quad(s2, h2 as int),
    ensures
        h1 == h2,
{
    assert(s2[h1 as int] == s1[h1 as int]);
    if h1 != h2 {
        assert(quad(s2, h1 as int) != quad(s2, h2 as int));
    }
}

/// A live cell of a node lies inside its square.
pub proof fn lemma_alive_in_square(s: Seq<crate::cell::Cell>, h: int, r: int, c: int)
    requires
        nodes_wf(s),
        0 <= h < s.len(),
        alive(s, h, r, c),
    ensures
        0 <= r < side(s, h),
        0 <= c < side(s, h),
    decreases h,
{
    lemma_node(s, h);
    if s[h] is Macro {
        let m = s[h]->Macro_0;
        let half = two_pow((m.size + 1) as nat) as int;
        assert(side(s, h) == 2 * half);
        if r < half {
            if c < half {
                lemma_alive_in_square(s, m.tl as int, r, c);
            } else {
                lemma_alive_in_square(s, m.tr as int, r, c - half);
            }
        } else {
            if c < half {
                lemma_alive_in_square(s, m.bl as int, r - half, c);
            } else {
                lemma_alive_in_square(s, m.br as int, r - half, c - half);
            }
        }
    } else {
        assert(two_pow(1) == 2) by {
            assert(two_pow(0) == 1);
        }
    }
}

/// A node is recorded dead exactly when none of its cells is alive.
pub proof fn lemma_dead_iff_empty(s: Seq<crate::cell::Cell>, h: int)
    requires
        nodes_wf(s),
        0 <= h < s.len(),
    ensures
        dead(s, h) <==> forall|r: int, c: int| !#[trigger] alive(s, h, r, c),
    decreases h,
{
    lemma_node(s, h);
    if s[h] is Macro {
        let m = s[h]->Macro_0;
        let half = two_pow((m.size + 1) as nat) as int;
        lemma_dead_iff_empty(s, m.tl as int);
        lemma_dead_iff_empty(s, m.tr as int);
        lemma_dead_iff_empty(s, m.bl as int);
        lemma_dead_iff_empty(s, m.br as int);
        if dead(s, h) {
            assert forall|r: int, c: int| !#[trigger] alive(s, h, r, c) by {
                assert(!alive(s, m.tl as int, r, c));
                assert(!alive(s, m.tr as int, r, c - half));
                assert(!alive(s, m.bl as int, r - half, c));
                assert(!alive(s, m.br as int, r - half, c - half));
            }
        } else {
            if !dead(s, m.tl as int) {
                let (r, c) = choose|r: int, c: int| alive(s, m.tl as int, r, c);
                lemma_alive_in_square(s, m.tl as int, r, c);
                assert(alive(s, h, r, c));
            } else if !dead(s, m.tr as int) {
                let (r, c) = choose|r: int, c: int| alive(s, m.tr as int, r, c);
                lemma_alive_in_square(s, m.tr as int, r, c);
                assert(alive(s, h, r, c + half));
            } else if !dead(s, m.bl as int) {
                let (r, c) = choose|r: int, c: int| alive(s, m.bl as int, r, c);
                lemma_alive_in_square(s, m.bl as int, r, c);
                assert(alive(s, h, r + half, c));
            } else {
                let (r, c) = choose|r: int, c: int| alive(s, m.br as int, r, c);
                lemma_alive_in_square(s, m.br as int, r, c);
                assert(alive(s, h, r + half, c + half));
            }
        }
    } else {
        if !dead(s, h) {
            let t = tile(s, h);
            if t@[0] {
                assert(alive(s, h, 0, 0));
            } else if t@[1] {
                assert(alive(s, h, 0, 1));
            } else if t@[2] {
                assert(alive(s, h, 1, 0));
            } else {
                assert(alive(s, h, 1, 1));
            }
        }
    }
}

/// The smallest branch: its result is the inner 2x2 of its four leaves one
/// generation on, under the B3/S23 rule.
pub proof fn lemma_smallest_branch(s: Seq<crate::cell::Cell>, h: int)
    requires
        nodes_wf(s),
        0 <= h < s.len(),
        depth(s, h) == 1,
    ensures
        s[h] is Macro,
        tile(s, s[h]->Macro_0.result as int)@ == step_tile(
            tile(s, s[h]->Macro_0.tl as int),
            tile(s, s[h]->Macro_0.tr as int),
            tile(s, s[h]->Macro_0.bl as int),
            tile(s, s[h]->Macro_0.br as int),
        ),
{
    lemma_node(s, h);
}

/// Where the node that `trim` returns sits inside the node it was given:
/// the row and column of its top-left cell.
pub open spec fn trim_offset(s: Seq<crate::cell::Cell>, h: int) -> (int, int)
    decreases h,
{
    if 0 <= h < s.len() && s[h] is Macro {
        let m = s[h]->Macro_0;
        let half = two_pow((m.size + 1) as nat) as int;
        if m.tl < h && m.tr < h && m.bl < h && m.br < h {
            let a = dead(s, m.tl as int);
            let b = dead(s, m.tr as int);
            let c = dead(s, m.bl as int);
            let d = dead(s, m.br as int);
            if a && b && c && d {
                (0, 0)
            } else if !a && b && c && d {
                trim_offset(s, m.tl as int)
            } else if a && !b && c && d {
                (trim_offset(s, m.tr as int).0, trim_offset(s, m.tr as int).1 + half)
            } else if a && b && !c && d {
                (trim_offset(s, m.bl as int).0 + half, trim_offset(s, m.bl as int).1)
            } else if a && b && c && !d {
                (trim_offset(s, m.br as int).0 + half, trim_offset(s, m.br as int).1 + half)
            } else {
                (0, 0)
            }
        } else {
            (0, 0)
        }
    } else {
        (0, 0)
    }
}

/// Trimming keeps the live cells: each cell of the node reads as the cell of
/// the trimmed node, shifted by where the trimmed node sits.
pub proof fn lemma_trim_keeps_cells(s: Seq<crate::cell::Cell>, h: int)
    requires
        nodes_wf(s),
        0 <= h < s.len(),
    ensures
        forall|r: int, c: int| #[trigger] alive(s, h, r, c) == alive(
            s,
            trim_of(s, h),
            r - trim_offset(s, h).0,
            c - trim_offset(s, h).1,
        ),
    decreases h,
{
    lemma_node(s, h);
    lemma_node(s, DEAD_BASE as int);
    if s[h] is Macro {
        let m = s[h]->Macro_0;
        let half = two_pow((m.size + 1) as nat) as int;
        let a = dead(s, m.tl as int);
        let b = dead(s, m.tr as int);
        let c = dead(s, m.bl as int);
        let d = dead(s, m.br as int);
        lemma_dead_iff_empty(s, m.tl as int);
        lemma_dead_iff_empty(s, m.tr as int);
        lemma_dead_iff_empty(s, m.bl as int);
        lemma_dead_iff_empty(s, m.br as int);
        lemma_dead_iff_empty(s, DEAD_BASE as int);
        if a && b && c && d {
            assert forall|r: int, c: int| #[trigger] alive(s, h, r, c) == alive(s, trim_of(s, h), r - trim_offset(s, h).0, c - trim_offset(s, h).1) by {
                assert(!alive(s, m.tl as int, r, c));
                assert(!alive(s, m.tr as int, r, c - half));
                assert(!alive(s, m.bl as int, r - half, c));
                assert(!alive(s, m.br as int, r - half, c - half));
                assert(!alive(s, DEAD_BASE as int, r, c));
            }
        } else if !a && b && c && d {
            lemma_trim_keeps_cells(s, m.tl as int);
            assert forall|r: int, c: int| #[trigger] alive(s, h, r, c) == alive(s, trim_of(s, h), r - trim_offset(s, h).0, c - trim_offset(s, h).1) by {
                assert(!alive(s, m.tr as int, r, c - half));
                assert(!alive(s, m.bl as int, r - half, c));
                assert(!alive(s, m.br as int, r - half, c - half));
                if alive(s, m.tl as int, r, c) {
                    lemma_alive_in_square(s, m.tl as int, r, c);
                }
            }
        } else if a && !b && c && d {
            lemma_trim_keeps_cells(s, m.tr as int);
            assert forall|r: int, c: int| #[trigger] alive(s, h, r, c) == alive(s, trim_of(s, h), r - trim_offset(s, h).0, c - trim_offset(s, h).1) by {
                assert(!alive(s, m.tl as int, r, c));
                assert(!alive(s, m.bl as int, r - half, c));
                assert(!alive(s, m.br as int, r - half, c - half));
                assert(alive(s, m.tr as int, r, c - half) == alive(s, trim_of(s, m.tr as int), r - trim_offset(s, m.tr as int).0, c - half - trim_offset(s, m.tr as int).1));
                if alive(s, m.tr as int, r, c - half) {
                    lemma_alive_in_square(s, m.tr as int, r, c - half);
                }
            }
        } else if a && b && !c && d {
            lemma_trim_keeps_cells(s, m.bl as int);
            assert forall|r: int, c: int| #[trigger] alive(s, h, r, c) == alive(s, trim_of(s, h), r - trim_offset(s, h).0, c - trim_offset(s, h).1) by {
                assert(!alive(s, m.tl as int, r, c));
                assert(!alive(s, m.tr as int, r, c - half));
                assert(!alive(s, m.br as int, r - half, c - half));
                assert(alive(s, m.bl as int, r - half, c) == alive(s, trim_of(s, m.bl as int), r - half - trim_offset(s, m.bl as int).0, c - trim_offset(s, m.bl as int).1));
                if alive(s, m.bl as int, r - half, c) {
                    lemma_alive_in_square(s, m.bl as int, r - half, c);
                }
            }
        } else if a && b && c && !d {
            lemma_trim_keeps_cells(s, m.br as int);
            assert forall|r: int, c: int| #[trigger] alive(s, h, r, c) == alive(s, trim_of(s, h), r - trim_offset(s, h).0, c - trim_offset(s, h).1) by {
                assert(!alive(s, m.tl as int, r, c));
                assert(!alive(s, m.tr as int, r, c - half));
                assert(!alive(s, m.bl as int, r - half, c));
                assert(alive(s, m.br as int, r - half, c - half) == alive(s, trim_of(s, m.br as int), r - half - trim_offset(s, m.br as int).0, c - half - trim_offset(s, m.br as int).1));
                if alive(s, m.br as int, r - half, c - half) {
                    lemma_alive_in_square(s, m.br as int, r - half, c - half);
                }
            }
        }
    }
}

pub proof fn lemma_two_pow_le(a: nat, b: nat)
    requires
        a <= b,
    ensures
        two_pow(a) <= two_pow(b),
    decreases b,
{
    if a < b {
        lemma_two_pow_le(a, (b - 1) as nat);
    }
}

/// Round trip: a square grid whose side is a power of two, at least 2, read
/// into a node as `World::from_grid` states, reads back as the same grid.
pub proof fn lemma_round_trip(g: Seq<Vec<bool>>, k: nat, s: Seq<crate::cell::Cell>, h: int)
    requires
        nodes_wf(s),
        0 <= h < s.len(),
        k >= 1,
        g.len() == two_pow(k),
        forall|i: int| 0 <= i < g.len() ==> #[trigger] g[i]@.len() == two_pow(k),
        fits(g, side(s, h) as int),
        side(s, h) == 2 || !fits(g, (side(s, h) / 2) as int),
        forall|r: int, c: int|
            0 <= r < side(s, h) && 0 <= c < side(s, h) ==> #[trigger] alive(s, h, r, c) == input_at(g, r, c),
    ensures
        grid_of(s, h) == g.map_values(|row: Vec<bool>| row@),
{
    let j = depth(s, h) + 1;
    let n = two_pow(k);
    assert(two_pow(1) == 2) by {
        assert(two_pow(0) == 1);
    }
    lemma_two_pow_le(1, k);
    if side(s, h) != 2 {
        assert(two_pow((j - 1) as nat) == side(s, h) / 2);
        assert(n > side(s, h) / 2);
        if k <= j - 1 {
            lemma_two_pow_le(k, (j - 1) as nat);
        }
        if k > j {
            lemma_two_pow_le(j + 1, k);
        }
    }
    assert(side(s, h) == n);
    let m = g.map_values(|row: Vec<bool>| row@);
    assert forall|r: int| 0 <= r < n implies #[trigger] grid_of(s, h)[r] == m[r] by {
        assert(grid_of(s, h)[r] =~= m[r]);
    }
    assert(grid_of(s, h) =~= m);
}

/// A drawing holds `#` exactly when some cell of the grid is alive.
pub proof fn lemma_render_shows_live(g: Seq<Seq<bool>>)
    ensures
        render(g).contains('#') <==> exists|r: int, c: int|
            0 <= r < g.len() && 0 <= c < g[r].len() && #[trigger] g[r][c],
    decreases g.len(),
{
    if g.len() > 0 {
        let front = g.drop_last();
        let row = g.last();
        lemma_render_shows_live(front);
        let tail = render_row(row) + seq!['\n'];
        assert(render(g) == render(front) + tail);
        if render(g).contains('#') {
            let k = choose|k: int| 0 <= k < render(g).len() && render(g)[k] == '#';
            if k < render(front).len() {
                assert(render(front)[k] == '#');
                let (r, c) = choose|r: int, c: int| 0 <= r < front.len() && 0 <= c < front[r].len() && #[trigger] front[r][c];
                assert(g[r][c]);
            } else {
                let j = k - render(front).len();
                assert(tail[j] == '#');
                assert(j < row.len());
                assert(row[j]);
                assert(g[g.len() - 1][j]);
            }
        }
        if exists|r: int, c: int| 0 <= r < g.len() && 0 <= c < g[r].len() && #[trigger] g[r][c] {
            let (r, c) = choose|r: int, c: int| 0 <= r < g.len() && 0 <= c < g[r].len() && #[trigger] g[r][c];
            if r < front.len() {
                assert(front[r][c]);
                let k = choose|k: int| 0 <= k < render(front).len() && render(front)[k] == '#';
                assert(render(g)[k] == '#');
            } else {
                assert(tail[c] == '#');
                assert(render(g)[render(front).len() + c] == '#');
            }
        }
    } else {
        assert(!render(g).contains('#'));
    }
}

/// A node is dead exactly when its drawing holds no `#`.
pub proof fn lemma_dead_iff_blank_drawing(s: Seq<crate::cell::Cell>, h: int)
    requires
        nodes_wf(s),
        0 <= h < s.len(),
    ensures
        dead(s, h) <==> !render(grid_of(s, h)).contains('#'),
{
    lemma_dead_iff_empty(s, h);
    lemma_render_shows_live(grid_of(s, h));
    let g = grid_of(s, h);
    if exists|r: int, c: int| 0 <= r < g.len() && 0 <= c < g[r].len() && #[trigger] g[r][c] {
        let (r, c) = choose|r: int, c: int| 0 <= r < g.len() && 0 <= c < g[r].len() && #[trigger] g[r][c];
        assert(alive(s, h, r, c));
    }
    if !dead(s, h) {
        let (r, c) = choose|r: int, c: int| alive(s, h, r, c);
        crate::theorems::lemma_alive_in_square(s, h, r, c);
        assert(g[r][c]);
    }
}

/// There is one dead node of each level: the dead leaf, and above it the
/// branch whose four children are the dead node of the level below.
pub proof fn lemma_dead_unique(s: Seq<crate::cell::Cell>, a: int, b: int)
    requires
        nodes_wf(s),
        0 <= a < s.len(),
        0 <= b < s.len(),
        dead(s, a),
        dead(s, b),
        depth(s, a) == depth(s, b),
    ensures
        a == b,
    decreases a + b,
{
    lemma_node(s, a);
    lemma_node(s, b);
    if s[a] is Base {
        assert(bits(a) == tile(s, a)@);
        assert(bits(b) == tile(s, b)@);
    } else {
        let ma = s[a]->Macro_0;
        let mb = s[b]->Macro_0;
        lemma_dead_unique(s, ma.tl as int, mb.tl as int);
        lemma_dead_unique(s, ma.tr as int, mb.tr as int);
        lemma_dead_unique(s, ma.bl as int, mb.bl as int);
        lemma_dead_unique(s, ma.br as int, mb.br as int);
        if a != b {
            assert(quad(s, a) != quad(s, b));
        }
    }
}

proof fn lemma_leaf_square(s: Seq<crate::cell::Cell>, m: crate::macro_::Macro, f: spec_fn(int, int) -> bool, or: int, oc: int)
    requires
        nodes_wf(s),
        m.size == 0,
        m.tl < s.len() && m.tr < s.len() && m.bl < s.len() && m.br < s.len(),
        depth(s, m.tl as int) == 0 && depth(s, m.tr as int) == 0,
        depth(s, m.bl as int) == 0 && depth(s, m.br as int) == 0,
        agrees(f, s, m, or, oc),
    ensures
        forall|r: int, col: int| 0 <= r < 4 && 0 <= col < 4 ==> #[trigger] f(or + r, oc + col)
            == tile_bit(tile(s, m.tl as int), tile(s, m.tr as int), tile(s, m.bl as int), tile(s, m.br as int), r, col),
{
    assert(two_pow(0) == 1);
    assert(two_pow(1) == 2);
    assert(two_pow(2) == 4);
    assert forall|r: int, col: int| 0 <= r < 4 && 0 <= col < 4 implies #[trigger] f(or + r, oc + col)
        == tile_bit(tile(s, m.tl as int), tile(s, m.tr as int), tile(s, m.bl as int), tile(s, m.br as int), r, col) by {
        assert(f(or + r, oc + col) == alive_m(s, m, r, col));
        lemma_node(s, m.tl as int);
        lemma_node(s, m.tr as int);
        lemma_node(s, m.bl as int);
        lemma_node(s, m.br as int);
        if r < 2 {
            if col < 2 {
                assert(alive_m(s, m, r, col) == alive(s, m.tl as int, r, col));
            } else {
                assert(alive_m(s, m, r, col) == alive(s, m.tr as int, r, col - 2));
            }
        } else {
            if col < 2 {
                assert(alive_m(s, m, r, col) == alive(s, m.bl as int, r - 2, col));
            } else {
                assert(alive_m(s, m, r, col) == alive(s, m.br as int, r - 2, col - 2));
            }
        }
    }
}

proof fn lemma_leaf_cell(a: [bool; 4], b: [bool; 4], c: [bool; 4], d: [bool; 4], f: spec_fn(int, int) -> bool, or: int, oc: int, r: int, col: int)
    requires
        forall|x: int, y: int| 0 <= x < 4 && 0 <= y < 4 ==> #[trigger] f(or + x, oc + y) == tile_bit(a, b, c, d, x, y),
        1 <= r <= 2,
        1 <= col <= 2,
    ensures
        next_gen(f)(or + r, oc + col) == next_state(a, b, c, d, r, col),
{
    assert(f(or + (r - 1), oc + (col - 1)) == tile_bit(a, b, c, d, r - 1, col - 1));
    assert(f(or + (r - 1), oc + (col)) == tile_bit(a, b, c, d, r - 1, col));
    assert(f(or + (r - 1), oc + (col + 1)) == tile_bit(a, b, c, d, r - 1, col + 1));
    assert(f(or + (r), oc + (col - 1)) == tile_bit(a, b, c, d, r, col - 1));
    assert(f(or + (r), oc + (col)) == tile_bit(a, b, c, d, r, col));
    assert(f(or + (r), oc + (col + 1)) == tile_bit(a, b, c, d, r, col + 1));
    assert(f(or + (r + 1), oc + (col - 1)) == tile_bit(a, b, c, d, r + 1, col - 1));
    assert(f(or + (r + 1), oc + (col)) == tile_bit(a, b, c, d, r + 1, col));
    assert(f(or + (r + 1), oc + (col + 1)) == tile_bit(a, b, c, d, r + 1, col + 1));
    assert(or + (r - 1) == or + r - 1);
    assert(oc + (col - 1) == oc + col - 1);
}

/// The smallest branch evolves: one generation of its 4x4 square, read at
/// its inner 2x2, is its result.
pub proof fn lemma_evolves_leaf(s: Seq<crate::cell::Cell>, m: crate::macro_::Macro)
    requires
        nodes_wf(s),
        m.size == 0,
        m.tl < s.len() && m.tr < s.len() && m.bl < s.len() && m.br < s.len(),
        m.result < s.len(),
        depth(s, m.tl as int) == 0 && depth(s, m.tr as int) == 0,
        depth(s, m.bl as int) == 0 && depth(s, m.br as int) == 0,
        depth(s, m.result as int) == 0,
        tile(s, m.result as int)@ == step_tile(
            tile(s, m.tl as int),
            tile(s, m.tr as int),
            tile(s, m.bl as int),
            tile(s, m.br as int),
        ),
    ensures
        evolves(s, m),
{
    reveal(evolves);
    let a = tile(s, m.tl as int);
    let b = tile(s, m.tr as int);
    let c = tile(s, m.bl as int);
    let d = tile(s, m.br as int);
    assert(two_pow(0) == 1);
    assert(two_pow(1) == 2);
    lemma_node(s, m.result as int);
    assert forall|f: spec_fn(int, int) -> bool, or: int, oc: int|
        #[trigger] agrees(f, s, m, or, oc) implies forall|r: int, col: int|
            0 <= r < 2 * two_pow(m.size as nat) && 0 <= col < 2 * two_pow(m.size as nat)
                ==> #[trigger] alive(s, m.result as int, r, col) == generations(f, two_pow(m.size as nat))(
                or + two_pow(m.size as nat) + r,
                oc + two_pow(m.size as nat) + col,
            ) by {
        lemma_leaf_square(s, m, f, or, oc);
        assert(generations(f, 1) == next_gen(generations(f, 0)));
        assert(generations(f, 0) == f);
        assert forall|r: int, col: int| 0 <= r < 2 && 0 <= col < 2 implies #[trigger] alive(s, m.result as int, r, col)
            == generations(f, 1)(or + 1 + r, oc + 1 + col) by {
            lemma_leaf_cell(a, b, c, d, f, or, oc, r + 1, col + 1);
            assert(alive(s, m.result as int, r, col) == step_tile(a, b, c, d)[r * 2 + col]);
        }
    }
}

/// Every branch of a well-formed world holds its own future: for any plane
/// that agrees with the branch's square, placed with its top-left at
/// `(or, oc)`, the result is the centre of that plane `2^size` generations
/// on (one generation for the smallest branch).
pub proof fn lemma_result_is_future(s: Seq<crate::cell::Cell>, h: int)
    requires
        nodes_wf(s),
        LEAVES <= h < s.len(),
    ensures
        forall|f: spec_fn(int, int) -> bool, or: int, oc: int|
            #[trigger] agrees(f, s, s[h]->Macro_0, or, oc) ==> forall|r: int, c: int|
                0 <= r < 2 * two_pow(s[h]->Macro_0.size as nat) && 0 <= c < 2 * two_pow(s[h]->Macro_0.size as nat)
                    ==> #[trigger] alive(s, s[h]->Macro_0.result as int, r, c) == generations(
                    f,
                    two_pow(s[h]->Macro_0.size as nat),
                )(
                    or + two_pow(s[h]->Macro_0.size as nat) + r,
                    oc + two_pow(s[h]->Macro_0.size as nat) + c,
                ),
{
    lemma_node(s, h);
    reveal(evolves);
}

/// Additivity of time: a jump by `a` then a jump by `b` gives the same live
/// cells, up to where they sit, as one jump by `a + b`. The three requires
/// are what `Cell::jump` ensures of its three calls.
pub proof fn lemma_jumps_add(
    pattern: spec_fn(int, int) -> bool,
    first: spec_fn(int, int) -> bool,
    twice: spec_fn(int, int) -> bool,
    once: spec_fn(int, int) -> bool,
    a: nat,
    b: nat,
)
    requires
        exists|dr: int, dc: int| first == #[trigger] shifted(generations(pattern, a), dr, dc),
        exists|dr: int, dc: int| twice == #[trigger] shifted(generations(first, b), dr, dc),
        exists|dr: int, dc: int| once == #[trigger] shifted(generations(pattern, a + b), dr, dc),
    ensures
        exists|dr: int, dc: int| twice == #[trigger] shifted(once, dr, dc),
{
    let (r1, c1) = choose|dr: int, dc: int| first == #[trigger] shifted(generations(pattern, a), dr, dc);
    let (r2, c2) = choose|dr: int, dc: int| twice == #[trigger] shifted(generations(first, b), dr, dc);
    let (r3, c3) = choose|dr: int, dc: int| once == #[trigger] shifted(generations(pattern, a + b), dr, dc);
    lemma_generations_shift(generations(pattern, a), r1, c1, b);
    lemma_generations_add(pattern, a, b);
    let g = generations(pattern, a + b);
    assert(twice =~= shifted(once, r1 + r2 - r3, c1 + c2 - c3)) by {
        assert forall|x: int, y: int| #[trigger] twice(x, y) == shifted(once, r1 + r2 - r3, c1 + c2 - c3)(x, y) by {
            assert(twice(x, y) == g(x + r2 + r1, y + c2 + c1));
            assert(once(x + r1 + r2 - r3, y + c1 + c2 - c3) == g(x + r1 + r2 - r3 + r3, y + c1 + c2 - c3 + c3));
        }
    }
}

} // verus!
