use vstd::prelude::*;
use crate::cell::Cell;
use crate::life::{generations, lemma_generations_add};
use crate::macro_::Macro;
use crate::world::{LEAVES, agrees, alive, alive_m, depth, evolves, lemma_node, nodes_wf, two_pow, wf_macro};

verus! {

/// Child `(i, j)` of a branch, for `i` and `j` in `0..2`.
pub open spec fn child_at(m: Macro, i: int, j: int) -> usize {
    if i == 0 {
        if j == 0 { m.tl } else { m.tr }
    } else {
        if j == 0 { m.bl } else { m.br }
    }
}

/// Grandchild `(i, j)` of a branch, for `i` and `j` in `0..4`.
pub open spec fn grandchild(s: Seq<Cell>, m: Macro, i: int, j: int) -> usize {
    child_at(s[child_at(m, i / 2, j / 2) as int]->Macro_0, i % 2, j % 2)
}

/// A branch of size `k + 1` whose children are branches.
pub open spec fn two_levels(s: Seq<Cell>, n: Macro, k: nat) -> bool {
    &&& n.size == k + 1
    &&& LEAVES <= n.tl < s.len() && LEAVES <= n.tr < s.len() && LEAVES <= n.bl < s.len()
    &&& LEAVES <= n.br < s.len()
    &&& depth(s, n.tl as int) == k + 1 && depth(s, n.tr as int) == k + 1
    &&& depth(s, n.bl as int) == k + 1 && depth(s, n.br as int) == k + 1
}

/// A cell of a branch two levels up, read in the grandchild that holds it.
proof fn lemma_grandchild_cell(s: Seq<Cell>, n: Macro, k: nat, i: int, j: int, r: int, c: int)
    requires
        nodes_wf(s),
        two_levels(s, n, k),
        0 <= i < 4,
        0 <= j < 4,
        0 <= r < two_pow(k + 1),
        0 <= c < two_pow(k + 1),
    ensures
        alive_m(s, n, i * two_pow(k + 1) + r, j * two_pow(k + 1) + c) == alive(
            s,
            grandchild(s, n, i, j) as int,
            r,
            c,
        ),
{
    let g = two_pow(k + 1) as int;
    assert(two_pow(k + 2) == 2 * g);
    let child = child_at(n, i / 2, j / 2);
    lemma_node(s, child as int);
    let cm = s[child as int]->Macro_0;
    assert(cm.size == k);
    let rr = (i % 2) * g + r;
    let cc = (j % 2) * g + c;
    if i < 2 {
        assert(i * g + r == rr);
    } else {
        assert(i * g + r - 2 * g == rr) by (nonlinear_arith)
            requires 2 <= i < 4, rr == (i % 2) * g + r;
    }
    if j < 2 {
        assert(j * g + c == cc);
    } else {
        assert(j * g + c - 2 * g == cc) by (nonlinear_arith)
            requires 2 <= j < 4, cc == (j % 2) * g + c;
    }
    if i < 2 {
        assert(i * g + r < 2 * g) by (nonlinear_arith)
            requires 0 <= i < 2, 0 <= r < g, i * g + r == (i % 2) * g + r;
    } else {
        assert(i * g + r >= 2 * g) by (nonlinear_arith)
            requires 2 <= i < 4, 0 <= r < g, g > 0;
    }
    if j < 2 {
        assert(j * g + c < 2 * g) by (nonlinear_arith)
            requires 0 <= j < 2, 0 <= c < g, j * g + c == (j % 2) * g + c;
    } else {
        assert(j * g + c >= 2 * g) by (nonlinear_arith)
            requires 2 <= j < 4, 0 <= c < g, g > 0;
    }
    assert(alive_m(s, n, i * g + r, j * g + c) == alive(s, child as int, rr, cc));
    if i % 2 == 0 {
        if j % 2 == 0 {
            assert(alive(s, child as int, rr, cc) == alive(s, cm.tl as int, r, c));
        } else {
            assert(alive(s, child as int, rr, cc) == alive(s, cm.tr as int, r, c));
        }
    } else {
        if j % 2 == 0 {
            assert(alive(s, child as int, rr, cc) == alive(s, cm.bl as int, r, c));
        } else {
            assert(alive(s, child as int, rr, cc) == alive(s, cm.br as int, r, c));
        }
    }
    assert(alive(s, child as int, rr, cc) == alive(s, grandchild(s, n, i, j) as int, r, c));
}

/// `x` is the block of `n` whose children are its grandchildren `(a, b)`,
/// `(a, b + 1)`, `(a + 1, b)`, `(a + 1, b + 1)`.
pub open spec fn is_block(s: Seq<Cell>, n: Macro, x: Macro, a: int, b: int) -> bool {
    x.quad() == (
        grandchild(s, n, a, b),
        grandchild(s, n, a, b + 1),
        grandchild(s, n, a + 1, b),
        grandchild(s, n, a + 1, b + 1),
    )
}

/// A plane that holds a branch holds each of its nine blocks, at the block's
/// place.
proof fn lemma_block_agrees(
    s: Seq<Cell>,
    n: Macro,
    k: nat,
    x: Macro,
    f: spec_fn(int, int) -> bool,
    or: int,
    oc: int,
    a: int,
    b: int,
)
    requires
        nodes_wf(s),
        two_levels(s, n, k),
        wf_macro(s, x),
        x.size == k,
        0 <= a <= 2,
        0 <= b <= 2,
        is_block(s, n, x, a, b),
        agrees(f, s, n, or, oc),
    ensures
        agrees(f, s, x, or + a * two_pow(k + 1), oc + b * two_pow(k + 1)),
{
    let g = two_pow(k + 1) as int;
    assert(two_pow(k + 2) == 2 * g);
    assert(g > 0) by {
        crate::world::lemma_two_pow_pos(k + 1);
    }
    assert forall|r: int, c: int|
        0 <= r < 2 * two_pow((x.size + 1) as nat) && 0 <= c < 2 * two_pow((x.size + 1) as nat) implies #[trigger] f(
        or + a * g + r,
        oc + b * g + c,
    ) == alive_m(s, x, r, c) by {
        let p: int = if r < g { 0 } else { 1 };
        let q: int = if c < g { 0 } else { 1 };
        let r1 = r - p * g;
        let c1 = c - q * g;
        lemma_grandchild_cell(s, n, k, a + p, b + q, r1, c1);
        assert((a + p) * g + r1 == a * g + r) by (nonlinear_arith)
            requires r1 == r - p * g;
        assert((b + q) * g + c1 == b * g + c) by (nonlinear_arith)
            requires c1 == c - q * g;
        assert(a * g + r < 4 * g) by (nonlinear_arith)
            requires 0 <= a <= 2, 0 <= r < 2 * g;
        assert(b * g + c < 4 * g) by (nonlinear_arith)
            requires 0 <= b <= 2, 0 <= c < 2 * g;
        assert(a * g + r >= 0) by (nonlinear_arith)
            requires 0 <= a, 0 <= r, g > 0;
        assert(b * g + c >= 0) by (nonlinear_arith)
            requires 0 <= b, 0 <= c, g > 0;
        assert(f(or + a * g + r, oc + b * g + c) == f(or + (a * g + r), oc + (b * g + c)));
        assert(f(or + (a * g + r), oc + (b * g + c)) == alive_m(s, n, a * g + r, b * g + c));
    }
}

/// The result of a branch, read where a plane that holds the branch puts it.
proof fn lemma_result_cells(s: Seq<Cell>, x: Macro, f: spec_fn(int, int) -> bool, or: int, oc: int)
    requires
        wf_macro(s, x),
        agrees(f, s, x, or, oc),
    ensures
        forall|r: int, c: int|
            0 <= r < 2 * two_pow(x.size as nat) && 0 <= c < 2 * two_pow(x.size as nat)
                ==> #[trigger] alive(s, x.result as int, r, c) == generations(f, two_pow(x.size as nat))(
                or + two_pow(x.size as nat) + r,
                oc + two_pow(x.size as nat) + c,
            ),
{
    reveal(evolves);
}

/// Four blocks in a square, each held by the plane `f` at its place: the
/// branch made of their results is held by `f` a step of `2^k` on, and its
/// own result is the plane `2^(k+1)` generations on.
proof fn lemma_quarter(
    s: Seq<Cell>,
    k: nat,
    q: Macro,
    x00: Macro,
    x01: Macro,
    x10: Macro,
    x11: Macro,
    f: spec_fn(int, int) -> bool,
    or: int,
    oc: int,
)
    requires
        nodes_wf(s),
        wf_macro(s, q),
        q.size == k,
        q.quad() == (x00.result, x01.result, x10.result, x11.result),
        wf_macro(s, x00) && wf_macro(s, x01) && wf_macro(s, x10) && wf_macro(s, x11),
        x00.size == k && x01.size == k && x10.size == k && x11.size == k,
        agrees(f, s, x00, or, oc),
        agrees(f, s, x01, or, oc + two_pow(k + 1)),
        agrees(f, s, x10, or + two_pow(k + 1), oc),
        agrees(f, s, x11, or + two_pow(k + 1), oc + two_pow(k + 1)),
    ensures
        forall|r: int, c: int|
            0 <= r < two_pow(k + 1) && 0 <= c < two_pow(k + 1) ==> #[trigger] alive(s, q.result as int, r, c)
                == generations(f, two_pow(k + 1))(or + two_pow(k + 1) + r, oc + two_pow(k + 1) + c),
{
    let g = two_pow(k + 1) as int;
    let t = two_pow(k);
    assert(g == 2 * t);
    let h = generations(f, t);
    lemma_result_cells(s, x00, f, or, oc);
    lemma_result_cells(s, x01, f, or, oc + g);
    lemma_result_cells(s, x10, f, or + g, oc);
    lemma_result_cells(s, x11, f, or + g, oc + g);
    assert forall|r: int, c: int|
        0 <= r < 2 * two_pow((q.size + 1) as nat) && 0 <= c < 2 * two_pow((q.size + 1) as nat) implies #[trigger] h(
        or + t + r,
        oc + t + c,
    ) == alive_m(s, q, r, c) by {
        if r < g {
            if c < g {
                assert(alive(s, x00.result as int, r, c) == h(or + t + r, oc + t + c));
            } else {
                assert(alive(s, x01.result as int, r, c - g) == h(or + t + r, oc + g + t + (c - g)));
            }
        } else {
            if c < g {
                assert(alive(s, x10.result as int, r - g, c) == h(or + g + t + (r - g), oc + t + c));
            } else {
                assert(alive(s, x11.result as int, r - g, c - g) == h(or + g + t + (r - g), oc + g + t + (c - g)));
            }
        }
    }
    lemma_result_cells(s, q, h, or + t, oc + t);
    lemma_generations_add(f, t, t);
}

/// Quarter `(i, j)` of a branch two levels up, made of its blocks `(i, j)`,
/// `(i, j + 1)`, `(i + 1, j)`, `(i + 1, j + 1)`: its result is the plane
/// `2^(k+1)` generations on, at the quarter's place.
proof fn lemma_quarter_at(
    s: Seq<Cell>,
    n: Macro,
    k: nat,
    q: Macro,
    x00: Macro,
    x01: Macro,
    x10: Macro,
    x11: Macro,
    f: spec_fn(int, int) -> bool,
    or: int,
    oc: int,
    i: int,
    j: int,
)
    requires
        nodes_wf(s),
        two_levels(s, n, k),
        agrees(f, s, n, or, oc),
        0 <= i < 2,
        0 <= j < 2,
        wf_macro(s, x00) && x00.size == k && is_block(s, n, x00, i, j),
        wf_macro(s, x01) && x01.size == k && is_block(s, n, x01, i, j + 1),
        wf_macro(s, x10) && x10.size == k && is_block(s, n, x10, i + 1, j),
        wf_macro(s, x11) && x11.size == k && is_block(s, n, x11, i + 1, j + 1),
        wf_macro(s, q),
        q.size == k,
        q.quad() == (x00.result, x01.result, x10.result, x11.result),
    ensures
        forall|r: int, c: int|
            0 <= r < two_pow(k + 1) && 0 <= c < two_pow(k + 1) ==> #[trigger] alive(s, q.result as int, r, c)
                == generations(f, two_pow(k + 1))(
                or + i * two_pow(k + 1) + two_pow(k + 1) + r,
                oc + j * two_pow(k + 1) + two_pow(k + 1) + c,
            ),
{
    let g = two_pow(k + 1) as int;
    lemma_block_agrees(s, n, k, x00, f, or, oc, i, j);
    lemma_block_agrees(s, n, k, x01, f, or, oc, i, j + 1);
    lemma_block_agrees(s, n, k, x10, f, or, oc, i + 1, j);
    lemma_block_agrees(s, n, k, x11, f, or, oc, i + 1, j + 1);
    assert(oc + (j + 1) * g == oc + j * g + g) by (nonlinear_arith);
    assert(or + (i + 1) * g == or + i * g + g) by (nonlinear_arith);
    lemma_quarter(s, k, q, x00, x01, x10, x11, f, or + i * g, oc + j * g);
}

/// A branch two levels up evolves when its result is built from its nine
/// blocks `x_ab` (children: grandchildren `(a, b)` to `(a + 1, b + 1)`): their
/// results joined into four quarters `q_ij`, and the results of those joined
/// once more.
pub proof fn lemma_evolves_step(
    s: Seq<Cell>,
    n: Macro,
    k: nat,
    x00: Macro,
    x01: Macro,
    x02: Macro,
    x10: Macro,
    x11: Macro,
    x12: Macro,
    x20: Macro,
    x21: Macro,
    x22: Macro,
    q00: Macro,
    q01: Macro,
    q10: Macro,
    q11: Macro,
)
    requires
        nodes_wf(s),
        two_levels(s, n, k),
        wf_macro(s, x00) && x00.size == k && is_block(s, n, x00, 0, 0),
        wf_macro(s, x01) && x01.size == k && is_block(s, n, x01, 0, 1),
        wf_macro(s, x02) && x02.size == k && is_block(s, n, x02, 0, 2),
        wf_macro(s, x10) && x10.size == k && is_block(s, n, x10, 1, 0),
        wf_macro(s, x11) && x11.size == k && is_block(s, n, x11, 1, 1),
        wf_macro(s, x12) && x12.size == k && is_block(s, n, x12, 1, 2),
        wf_macro(s, x20) && x20.size == k && is_block(s, n, x20, 2, 0),
        wf_macro(s, x21) && x21.size == k && is_block(s, n, x21, 2, 1),
        wf_macro(s, x22) && x22.size == k && is_block(s, n, x22, 2, 2),
        wf_macro(s, q00) && q00.size == k && q00.quad() == (x00.result, x01.result, x10.result, x11.result),
        wf_macro(s, q01) && q01.size == k && q01.quad() == (x01.result, x02.result, x11.result, x12.result),
        wf_macro(s, q10) && q10.size == k && q10.quad() == (x10.result, x11.result, x20.result, x21.result),
        wf_macro(s, q11) && q11.size == k && q11.quad() == (x11.result, x12.result, x21.result, x22.result),
        LEAVES <= n.result < s.len(),
        depth(s, n.result as int) == k + 1,
        crate::world::quad(s, n.result as int) == (q00.result, q01.result, q10.result, q11.result),
    ensures
        evolves(s, n),
{
    reveal(evolves);
    let g = two_pow(k + 1) as int;
    assert(two_pow(k + 2) == 2 * g);
    lemma_node(s, n.result as int);
    assert forall|f: spec_fn(int, int) -> bool, or: int, oc: int|
        #[trigger] agrees(f, s, n, or, oc) implies forall|r: int, c: int|
            0 <= r < 2 * two_pow(n.size as nat) && 0 <= c < 2 * two_pow(n.size as nat)
                ==> #[trigger] alive(s, n.result as int, r, c) == generations(f, two_pow(n.size as nat))(
                or + two_pow(n.size as nat) + r,
                oc + two_pow(n.size as nat) + c,
            ) by {
        lemma_quarter_at(s, n, k, q00, x00, x01, x10, x11, f, or, oc, 0, 0);
        lemma_quarter_at(s, n, k, q01, x01, x02, x11, x12, f, or, oc, 0, 1);
        lemma_quarter_at(s, n, k, q10, x10, x11, x20, x21, f, or, oc, 1, 0);
        lemma_quarter_at(s, n, k, q11, x11, x12, x21, x22, f, or, oc, 1, 1);
        assert forall|r: int, c: int|
            0 <= r < 2 * two_pow(n.size as nat) && 0 <= c < 2 * two_pow(n.size as nat) implies #[trigger] alive(
            s,
            n.result as int,
            r,
            c,
        ) == generations(f, two_pow(n.size as nat))(or + two_pow(n.size as nat) + r, oc + two_pow(n.size as nat) + c) by {
            let h = generations(f, g as nat);
            if r < g {
                if c < g {
                    assert(alive(s, q00.result as int, r, c) == h(or + 0 * g + g + r, oc + 0 * g + g + c));
                } else {
                    assert(alive(s, q01.result as int, r, c - g) == h(or + 0 * g + g + r, oc + 1 * g + g + (c - g)));
                }
            } else {
                if c < g {
                    assert(alive(s, q10.result as int, r - g, c) == h(or + 1 * g + g + (r - g), oc + 0 * g + g + c));
                } else {
                    assert(alive(s, q11.result as int, r - g, c - g) == h(or + 1 * g + g + (r - g), oc + 1 * g + g + (c - g)));
                }
            }
        }
    }
}

/// The plane `f` holds node `h` with its top-left at `(or, oc)`.
pub open spec fn holds(f: spec_fn(int, int) -> bool, s: Seq<Cell>, h: usize, or: int, oc: int) -> bool {
    forall|r: int, c: int|
        0 <= r < crate::world::side(s, h as int) && 0 <= c < crate::world::side(s, h as int)
            ==> #[trigger] f(or + r, oc + c) == alive(s, h as int, r, c)
}

/// A plane holds a branch exactly when it holds its four children at their
/// places.
pub proof fn lemma_agrees_children(f: spec_fn(int, int) -> bool, s: Seq<Cell>, m: Macro, or: int, oc: int)
    requires
        wf_macro(s, m),
    ensures
        agrees(f, s, m, or, oc) <==> (holds(f, s, m.tl, or, oc) && holds(
            f,
            s,
            m.tr,
            or,
            oc + two_pow((m.size + 1) as nat),
        ) && holds(f, s, m.bl, or + two_pow((m.size + 1) as nat), oc) && holds(
            f,
            s,
            m.br,
            or + two_pow((m.size + 1) as nat),
            oc + two_pow((m.size + 1) as nat),
        )),
{
    let g = two_pow((m.size + 1) as nat) as int;
    if agrees(f, s, m, or, oc) {
        assert forall|r: int, c: int| 0 <= r < g && 0 <= c < g implies #[trigger] f(or + r, oc + c) == alive(s, m.tl as int, r, c) by {
            assert(f(or + r, oc + c) == alive_m(s, m, r, c));
        }
        assert forall|r: int, c: int| 0 <= r < g && 0 <= c < g implies #[trigger] f(or + r, oc + g + c) == alive(s, m.tr as int, r, c) by {
            assert(f(or + r, oc + (g + c)) == alive_m(s, m, r, g + c));
        }
        assert forall|r: int, c: int| 0 <= r < g && 0 <= c < g implies #[trigger] f(or + g + r, oc + c) == alive(s, m.bl as int, r, c) by {
            assert(f(or + (g + r), oc + c) == alive_m(s, m, g + r, c));
        }
        assert forall|r: int, c: int| 0 <= r < g && 0 <= c < g implies #[trigger] f(or + g + r, oc + g + c) == alive(s, m.br as int, r, c) by {
            assert(f(or + (g + r), oc + (g + c)) == alive_m(s, m, g + r, g + c));
        }
    }
    if holds(f, s, m.tl, or, oc) && holds(f, s, m.tr, or, oc + g) && holds(f, s, m.bl, or + g, oc) && holds(f, s, m.br, or + g, oc + g) {
        assert forall|r: int, c: int| 0 <= r < 2 * g && 0 <= c < 2 * g implies #[trigger] f(or + r, oc + c) == alive_m(s, m, r, c) by {
            if r < g {
                if c < g {
                    assert(f(or + r, oc + c) == alive(s, m.tl as int, r, c));
                } else {
                    assert(f(or + r, oc + g + (c - g)) == alive(s, m.tr as int, r, c - g));
                }
            } else {
                if c < g {
                    assert(f(or + g + (r - g), oc + c) == alive(s, m.bl as int, r - g, c));
                } else {
                    assert(f(or + g + (r - g), oc + g + (c - g)) == alive(s, m.br as int, r - g, c - g));
                }
            }
        }
    }
}

pub proof fn lemma_holds_node(f: spec_fn(int, int) -> bool, s: Seq<Cell>, h: usize, or: int, oc: int)
    requires
        nodes_wf(s),
        LEAVES <= h < s.len(),
    ensures
        holds(f, s, h, or, oc) <==> agrees(f, s, s[h as int]->Macro_0, or, oc),
{
    lemma_node(s, h as int);
    let m = s[h as int]->Macro_0;
    assert forall|r: int, c: int| #[trigger] alive(s, h as int, r, c) == alive_m(s, m, r, c) by {}
}

pub proof fn lemma_holds_grows(f: spec_fn(int, int) -> bool, s: Seq<Cell>, t: Seq<Cell>, h: usize, or: int, oc: int)
    requires
        nodes_wf(s),
        crate::world::extends(s, t),
        h < s.len(),
        holds(f, s, h, or, oc),
    ensures
        holds(f, t, h, or, oc),
{
    crate::world::lemma_alive_grows(s, t, h as int);
    assert(t[h as int] == s[h as int]);
}

/// A plane that holds a branch holds its result `2^size` generations on.
pub proof fn lemma_result_holds(f: spec_fn(int, int) -> bool, s: Seq<Cell>, x: Macro, or: int, oc: int)
    requires
        wf_macro(s, x),
        agrees(f, s, x, or, oc),
    ensures
        holds(
            generations(f, two_pow(x.size as nat)),
            s,
            x.result,
            or + two_pow(x.size as nat),
            oc + two_pow(x.size as nat),
        ),
{
    lemma_result_cells(s, x, f, or, oc);
    let t = two_pow(x.size as nat) as int;
    assert(two_pow((x.size + 1) as nat) == 2 * t);
    let h = generations(f, t as nat);
    assert forall|r: int, c: int| 0 <= r < crate::world::side(s, x.result as int) && 0 <= c < crate::world::side(s, x.result as int)
        implies #[trigger] h(or + t + r, oc + t + c) == alive(s, x.result as int, r, c) by {}
}

/// The block between two branches side by side.
pub proof fn lemma_horiz_agrees(f: spec_fn(int, int) -> bool, s: Seq<Cell>, a: Macro, b: Macro, x: Macro, or: int, oc: int)
    requires
        wf_macro(s, a) && wf_macro(s, b) && wf_macro(s, x),
        b.size == a.size && x.size == a.size,
        x.quad() == (a.tr, b.tl, a.br, b.bl),
        agrees(f, s, a, or, oc),
        agrees(f, s, b, or, oc + 2 * two_pow((a.size + 1) as nat)),
    ensures
        agrees(f, s, x, or, oc + two_pow((a.size + 1) as nat)),
{
    let g = two_pow((a.size + 1) as nat) as int;
    lemma_agrees_children(f, s, a, or, oc);
    lemma_agrees_children(f, s, b, or, oc + 2 * g);
    assert(oc + 2 * g == oc + g + g);
    lemma_agrees_children(f, s, x, or, oc + g);
}

/// The block between two branches one above the other.
pub proof fn lemma_vert_agrees(f: spec_fn(int, int) -> bool, s: Seq<Cell>, a: Macro, c: Macro, x: Macro, or: int, oc: int)
    requires
        wf_macro(s, a) && wf_macro(s, c) && wf_macro(s, x),
        c.size == a.size && x.size == a.size,
        x.quad() == (a.bl, a.br, c.tl, c.tr),
        agrees(f, s, a, or, oc),
        agrees(f, s, c, or + 2 * two_pow((a.size + 1) as nat), oc),
    ensures
        agrees(f, s, x, or + two_pow((a.size + 1) as nat), oc),
{
    let g = two_pow((a.size + 1) as nat) as int;
    lemma_agrees_children(f, s, a, or, oc);
    lemma_agrees_children(f, s, c, or + 2 * g, oc);
    assert(or + 2 * g == or + g + g);
    lemma_agrees_children(f, s, x, or + g, oc);
}

/// The block at the centre of four branches in a square.
pub proof fn lemma_center_agrees(
    f: spec_fn(int, int) -> bool,
    s: Seq<Cell>,
    a: Macro,
    b: Macro,
    c: Macro,
    d: Macro,
    x: Macro,
    or: int,
    oc: int,
)
    requires
        wf_macro(s, a) && wf_macro(s, b) && wf_macro(s, c) && wf_macro(s, d) && wf_macro(s, x),
        b.size == a.size && c.size == a.size && d.size == a.size && x.size == a.size,
        x.quad() == (a.br, b.bl, c.tr, d.tl),
        agrees(f, s, a, or, oc),
        agrees(f, s, b, or, oc + 2 * two_pow((a.size + 1) as nat)),
        agrees(f, s, c, or + 2 * two_pow((a.size + 1) as nat), oc),
        agrees(f, s, d, or + 2 * two_pow((a.size + 1) as nat), oc + 2 * two_pow((a.size + 1) as nat)),
    ensures
        agrees(f, s, x, or + two_pow((a.size + 1) as nat), oc + two_pow((a.size + 1) as nat)),
{
    let g = two_pow((a.size + 1) as nat) as int;
    lemma_agrees_children(f, s, a, or, oc);
    lemma_agrees_children(f, s, b, or, oc + 2 * g);
    lemma_agrees_children(f, s, c, or + 2 * g, oc);
    lemma_agrees_children(f, s, d, or + 2 * g, oc + 2 * g);
    assert(oc + 2 * g == oc + g + g);
    assert(or + 2 * g == or + g + g);
    lemma_agrees_children(f, s, x, or + g, oc + g);
}

/// Each node of the `m` by `w` grid `g` is held by the plane `f` at its
/// place: row `a`, column `b` at `(or + a * side, oc + b * side)`.
pub open spec fn grid_holds(f: spec_fn(int, int) -> bool, s: Seq<Cell>, g: Seq<Vec<usize>>, m: nat, w: nat, side: int, or: int, oc: int) -> bool {
    forall|a: int, b: int|
        #![trigger g[a]@[b]]
        0 <= a < m && 0 <= b < w ==> holds(f, s, g[a]@[b], or + a * side, oc + b * side)
}

pub proof fn lemma_grid_holds_grows(f: spec_fn(int, int) -> bool, s: Seq<Cell>, t: Seq<Cell>, g: Seq<Vec<usize>>, m: nat, w: nat, side: int, or: int, oc: int, d: nat, all_dead: bool)
    requires
        nodes_wf(s),
        crate::world::extends(s, t),
        crate::cell::rows_ok(s, g, m, w, d, all_dead),
        grid_holds(f, s, g, m, w, side, or, oc),
    ensures
        grid_holds(f, t, g, m, w, side, or, oc),
{
    assert forall|a: int, b: int| #![trigger g[a]@[b]] 0 <= a < m && 0 <= b < w implies holds(f, t, g[a]@[b], or + a * side, oc + b * side) by {
        assert(g[a]@.len() == w && crate::cell::row_ok(s, g[a]@, d, all_dead));
        assert(crate::cell::handle_ok(s, g[a]@[b], d, all_dead));
        lemma_holds_grows(f, s, t, g[a]@[b], or + a * side, oc + b * side);
    }
}

/// Joining each 2x2 block of a grid held by a plane gives a grid held by
/// the same plane, at twice the spacing.
pub proof fn lemma_joined_holds(
    f: spec_fn(int, int) -> bool,
    s0: Seq<Cell>,
    s1: Seq<Cell>,
    grid: Seq<Vec<usize>>,
    joined: Seq<Vec<usize>>,
    m: nat,
    d: nat,
    all_dead: bool,
    or: int,
    oc: int,
)
    requires
        nodes_wf(s0),
        nodes_wf(s1),
        crate::world::extends(s0, s1),
        crate::cell::rows_ok(s0, grid, 2 * m, 2 * m, d, all_dead),
        grid_holds(f, s0, grid, 2 * m, 2 * m, two_pow(d + 1) as int, or, oc),
        crate::cell::rows_ok(s1, joined, m, m, d + 1, all_dead),
        forall|i: int, j: int|
            #![trigger joined[i]@[j]]
            0 <= i < m && 0 <= j < m ==> crate::cell::joins(s1, grid, joined[i]@[j], i, j),
    ensures
        grid_holds(f, s1, joined, m, m, two_pow(d + 2) as int, or, oc),
{
    let w = two_pow(d + 1) as int;
    assert(two_pow(d + 2) == 2 * w);
    lemma_grid_holds_grows(f, s0, s1, grid, 2 * m, 2 * m, w, or, oc, d, all_dead);
    assert forall|i: int, j: int| #![trigger joined[i]@[j]] 0 <= i < m && 0 <= j < m implies holds(f, s1, joined[i]@[j], or + i * (2 * w), oc + j * (2 * w)) by {
        let h = joined[i]@[j];
        assert(crate::cell::joins(s1, grid, h, i, j));
        lemma_node(s1, h as int);
        let hm = s1[h as int]->Macro_0;
        assert(grid[2 * i]@.len() == 2 * m && crate::cell::row_ok(s0, grid[2 * i]@, d, all_dead));
        assert(crate::cell::handle_ok(s0, grid[2 * i]@[2 * j], d, all_dead));
        assert(s1[grid[2 * i]@[2 * j] as int] == s0[grid[2 * i]@[2 * j] as int]);
        assert(hm.size == d);
        assert(holds(f, s1, grid[2 * i]@[2 * j], or + (2 * i) * w, oc + (2 * j) * w));
        assert(holds(f, s1, grid[2 * i]@[2 * j + 1], or + (2 * i) * w, oc + (2 * j + 1) * w));
        assert(holds(f, s1, grid[2 * i + 1]@[2 * j], or + (2 * i + 1) * w, oc + (2 * j) * w));
        assert(holds(f, s1, grid[2 * i + 1]@[2 * j + 1], or + (2 * i + 1) * w, oc + (2 * j + 1) * w));
        assert(or + (2 * i) * w == or + i * (2 * w)) by (nonlinear_arith);
        assert(oc + (2 * j) * w == oc + j * (2 * w)) by (nonlinear_arith);
        assert(or + (2 * i + 1) * w == or + i * (2 * w) + w) by (nonlinear_arith);
        assert(oc + (2 * j + 1) * w == oc + j * (2 * w) + w) by (nonlinear_arith);
        lemma_agrees_children(f, s1, hm, or + i * (2 * w), oc + j * (2 * w));
        lemma_holds_node(f, s1, h, or + i * (2 * w), oc + j * (2 * w));
    }
}

/// A branch padded with dead space: `p` holds `m` at its centre and nothing
/// else.
pub proof fn lemma_padded_cells(s: Seq<Cell>, m: Macro, p: Macro, dp: usize)
    requires
        nodes_wf(s),
        wf_macro(s, m),
        wf_macro(s, p),
        p.size == m.size + 1,
        dp < s.len(),
        crate::world::dead(s, dp as int),
        LEAVES <= p.tl < s.len() && LEAVES <= p.tr < s.len(),
        LEAVES <= p.bl < s.len() && LEAVES <= p.br < s.len(),
        crate::world::quad(s, p.tl as int) == (dp, dp, dp, m.tl),
        crate::world::quad(s, p.tr as int) == (dp, dp, m.tr, dp),
        crate::world::quad(s, p.bl as int) == (dp, m.bl, dp, dp),
        crate::world::quad(s, p.br as int) == (m.br, dp, dp, dp),
    ensures
        forall|r: int, c: int| #[trigger] alive_m(s, p, r, c) == alive_m(
            s,
            m,
            r - two_pow((m.size + 1) as nat),
            c - two_pow((m.size + 1) as nat),
        ),
{
    let q = two_pow((m.size + 1) as nat) as int;
    assert(two_pow((p.size + 1) as nat) == 2 * q);
    crate::theorems::lemma_dead_iff_empty(s, dp as int);
    lemma_node(s, p.tl as int);
    lemma_node(s, p.tr as int);
    lemma_node(s, p.bl as int);
    lemma_node(s, p.br as int);
    let d = dp as int;
    assert(s[p.tl as int]->Macro_0.size == m.size);
    assert(s[p.tr as int]->Macro_0.size == m.size);
    assert(s[p.bl as int]->Macro_0.size == m.size);
    assert(s[p.br as int]->Macro_0.size == m.size);
    assert forall|x: int, y: int| #[trigger] alive(s, p.tl as int, x, y) == (x >= q && y >= q && alive(s, m.tl as int, x - q, y - q)) by {
        if x < q { if y < q { assert(!alive(s, d, x, y)); } else { assert(!alive(s, d, x, y - q)); } }
        else if y < q { assert(!alive(s, d, x - q, y)); }
    }
    assert forall|x: int, y: int| #[trigger] alive(s, p.tr as int, x, y) == (x >= q && y < q && alive(s, m.tr as int, x - q, y)) by {
        if x < q { if y < q { assert(!alive(s, d, x, y)); } else { assert(!alive(s, d, x, y - q)); } }
        else if y >= q { assert(!alive(s, d, x - q, y - q)); }
    }
    assert forall|x: int, y: int| #[trigger] alive(s, p.bl as int, x, y) == (x < q && y >= q && alive(s, m.bl as int, x, y - q)) by {
        if x < q { if y < q { assert(!alive(s, d, x, y)); } }
        else if y < q { assert(!alive(s, d, x - q, y)); } else { assert(!alive(s, d, x - q, y - q)); }
    }
    assert forall|x: int, y: int| #[trigger] alive(s, p.br as int, x, y) == (x < q && y < q && alive(s, m.br as int, x, y)) by {
        if x < q { if y >= q { assert(!alive(s, d, x, y - q)); } }
        else if y < q { assert(!alive(s, d, x - q, y)); } else { assert(!alive(s, d, x - q, y - q)); }
    }
    assert forall|r: int, c: int| #[trigger] alive_m(s, p, r, c) == alive_m(s, m, r - q, c - q) by {
        if alive(s, m.tl as int, r - q, c - q) {
            crate::theorems::lemma_alive_in_square(s, m.tl as int, r - q, c - q);
        }
        if alive(s, m.tr as int, r - q, c - 2 * q) {
            crate::theorems::lemma_alive_in_square(s, m.tr as int, r - q, c - 2 * q);
        }
        if alive(s, m.bl as int, r - 2 * q, c - q) {
            crate::theorems::lemma_alive_in_square(s, m.bl as int, r - 2 * q, c - q);
        }
        if alive(s, m.br as int, r - 2 * q, c - 2 * q) {
            crate::theorems::lemma_alive_in_square(s, m.br as int, r - 2 * q, c - 2 * q);
        }
        if r < 2 * q {
            if c < 2 * q {
                assert(alive_m(s, p, r, c) == alive(s, p.tl as int, r, c));
            } else {
                assert(alive_m(s, p, r, c) == alive(s, p.tr as int, r, c - 2 * q));
            }
        } else {
            if c < 2 * q {
                assert(alive_m(s, p, r, c) == alive(s, p.bl as int, r - 2 * q, c));
            } else {
                assert(alive_m(s, p, r, c) == alive(s, p.br as int, r - 2 * q, c - 2 * q));
            }
        }
    }
}

/// The live cells of a branch lie inside its square.
pub proof fn lemma_alive_m_in_square(s: Seq<Cell>, m: Macro, r: int, c: int)
    requires
        nodes_wf(s),
        wf_macro(s, m),
        alive_m(s, m, r, c),
    ensures
        0 <= r < 2 * two_pow((m.size + 1) as nat),
        0 <= c < 2 * two_pow((m.size + 1) as nat),
{
    let q = two_pow((m.size + 1) as nat) as int;
    if r < q {
        if c < q {
            crate::theorems::lemma_alive_in_square(s, m.tl as int, r, c);
        } else {
            crate::theorems::lemma_alive_in_square(s, m.tr as int, r, c - q);
        }
    } else {
        if c < q {
            crate::theorems::lemma_alive_in_square(s, m.bl as int, r - q, c);
        } else {
            crate::theorems::lemma_alive_in_square(s, m.br as int, r - q, c - q);
        }
    }
}

pub proof fn lemma_alive_m_grows(s: Seq<Cell>, t: Seq<Cell>, m: Macro)
    requires
        nodes_wf(s),
        crate::world::extends(s, t),
        wf_macro(s, m),
    ensures
        forall|r: int, c: int| #[trigger] alive_m(t, m, r, c) == alive_m(s, m, r, c),
{
    crate::world::lemma_alive_grows(s, t, m.tl as int);
    crate::world::lemma_alive_grows(s, t, m.tr as int);
    crate::world::lemma_alive_grows(s, t, m.bl as int);
    crate::world::lemma_alive_grows(s, t, m.br as int);
    assert forall|r: int, c: int| #[trigger] alive_m(t, m, r, c) == alive_m(s, m, r, c) by {}
}

} // verus!
