use vstd::prelude::*;
use crate::macro_::Macro;
use crate::life::{generations, leaf_step, shifted};
use crate::evolution::grid_holds;
use crate::world::{plane, alive, agrees, evolves, two_pow, lemma_two_pow_pos, lemma_node, depth, dead, tile, extends, grows, node_ok, quad, wf_macro, Quarters, World, LEAVES};

verus! {

/// A quadtree node: a branch, or a 2x2 tile of cells in reading order.
#[derive(Debug, Clone, Copy)]
pub enum Cell {
    Macro(Macro),
    Base([bool; 4]),
}

/// The handle of the dead leaf.
pub const DEAD_BASE: usize = 0;

/// The node that `trim` returns: descends through every branch with exactly
/// one live child, and stops at the dead leaf for a dead branch.
pub open spec fn trim_of(s: Seq<Cell>, h: int) -> int
    decreases h,
{
    if 0 <= h < s.len() && s[h] is Macro {
        let m = s[h]->Macro_0;
        if m.tl < h && m.tr < h && m.bl < h && m.br < h && h >= 0 {
            let a = dead(s, m.tl as int);
            let b = dead(s, m.tr as int);
            let c = dead(s, m.bl as int);
            let d = dead(s, m.br as int);
            if a && b && c && d {
                DEAD_BASE as int
            } else if !a && b && c && d {
                trim_of(s, m.tl as int)
            } else if a && !b && c && d {
                trim_of(s, m.tr as int)
            } else if a && b && !c && d {
                trim_of(s, m.bl as int)
            } else if a && b && c && !d {
                trim_of(s, m.br as int)
            } else {
                h
            }
        } else {
            h
        }
    } else {
        h
    }
}

/// `h` is a leaf, or a branch with at least two live children.
pub open spec fn is_trimmed(s: Seq<Cell>, h: int) -> bool {
    s[h] is Base || {
        let m = s[h]->Macro_0;
        let n = crate::life::count(!dead(s, m.tl as int)) + crate::life::count(!dead(s, m.tr as int))
            + crate::life::count(!dead(s, m.bl as int)) + crate::life::count(!dead(s, m.br as int));
        n >= 2
    }
}

/// `h` names a node of level `d` that is dead if `all_dead` is.
pub open spec fn handle_ok(s: Seq<Cell>, h: usize, d: nat, all_dead: bool) -> bool {
    &&& h < s.len()
    &&& depth(s, h as int) == d
    &&& all_dead ==> dead(s, h as int)
}

/// Node `h` joins the 2x2 block of `grid` whose top-left is at row `2i`,
/// column `2j`.
pub open spec fn joins(s: Seq<Cell>, grid: Seq<Vec<usize>>, h: usize, i: int, j: int) -> bool {
    &&& LEAVES <= h < s.len()
    &&& quad(s, h as int) == (
        grid[2 * i]@[2 * j],
        grid[2 * i]@[2 * j + 1],
        grid[2 * i + 1]@[2 * j],
        grid[2 * i + 1]@[2 * j + 1],
    )
}

pub open spec fn row_ok(s: Seq<Cell>, row: Seq<usize>, d: nat, all_dead: bool) -> bool {
    forall|k: int| 0 <= k < row.len() ==> #[trigger] handle_ok(s, row[k], d, all_dead)
}

/// `g` has `m` rows of `w` handles each, all of level `d`.
pub open spec fn rows_ok(s: Seq<Cell>, g: Seq<Vec<usize>>, m: nat, w: nat, d: nat, all_dead: bool) -> bool {
    &&& g.len() == m
    &&& forall|i: int|
        #![trigger g[i]]
        0 <= i < m ==> g[i]@.len() == w && row_ok(s, g[i]@, d, all_dead)
}

/// Each branch of the `n` by `n` grid `g` is held by the plane `f` at its
/// place: row `i`, column `j` at `(or + i * side, oc + j * side)`.
pub open spec fn tiles_agree(f: spec_fn(int, int) -> bool, s: Seq<Cell>, g: Seq<Vec<Macro>>, n: nat, side: nat, or: int, oc: int) -> bool {
    forall|i: int, j: int|
        #![trigger g[i]@[j]]
        0 <= i < n && 0 <= j < n ==> agrees(f, s, g[i]@[j], or + i * side, oc + j * side)
}

/// `g` is an `n` by `n` grid of well-formed branches of the given size.
pub open spec fn macros_ok(s: Seq<Cell>, g: Seq<Vec<Macro>>, n: nat, size: usize, all_dead: bool) -> bool {
    &&& g.len() == n
    &&& forall|i: int| #![trigger g[i]] 0 <= i < n ==> g[i]@.len() == n
    &&& forall|i: int, j: int|
        #![trigger g[i]@[j]]
        0 <= i < n && 0 <= j < n ==> wf_macro(s, g[i]@[j]) && g[i]@[j].size == size && (
        all_dead ==> g[i]@[j].is_dead)
}

proof fn lemma_row_grows(s: Seq<Cell>, t: Seq<Cell>, row: Seq<usize>, d: nat, all_dead: bool)
    requires
        extends(s, t),
        row_ok(s, row, d, all_dead),
    ensures
        row_ok(t, row, d, all_dead),
{
    assert forall|k: int| 0 <= k < row.len() implies #[trigger] handle_ok(t, row[k], d, all_dead) by {
        assert(handle_ok(s, row[k], d, all_dead));
    }
}

proof fn lemma_rows_grow(s: Seq<Cell>, t: Seq<Cell>, g: Seq<Vec<usize>>, m: nat, w: nat, d: nat, all_dead: bool)
    requires
        extends(s, t),
        rows_ok(s, g, m, w, d, all_dead),
    ensures
        rows_ok(t, g, m, w, d, all_dead),
{
    assert forall|i: int| #![trigger g[i]] 0 <= i < m implies g[i]@.len() == w && row_ok(t, g[i]@, d, all_dead) by {
        lemma_row_grows(s, t, g[i]@, d, all_dead);
    }
}

proof fn lemma_macros_grow(s: Seq<Cell>, t: Seq<Cell>, g: Seq<Vec<Macro>>, n: nat, size: usize, all_dead: bool)
    requires
        grows(s, t),
        macros_ok(s, g, n, size, all_dead),
    ensures
        macros_ok(t, g, n, size, all_dead),
{
    assert forall|i: int, j: int| #![trigger g[i]@[j]] 0 <= i < n && 0 <= j < n implies wf_macro(t, g[i]@[j]) by {
        assert(wf_macro(s, g[i]@[j]));
    }
}

/// The plane `f`, `2^size` generations on, is dead from `n` tiles of side
/// `2^(size + 2)` on, less `2^size`, in both directions from `(or, oc)`.
pub open spec fn far_edge_clear(f: spec_fn(int, int) -> bool, n: int, size: nat, or: int, oc: int) -> bool {
    forall|r: int, c: int|
        r >= or + n * two_pow(size + 2) - two_pow(size) || c >= oc + n * two_pow(size + 2) - two_pow(size)
            ==> !#[trigger] generations(f, two_pow(size))(r, c)
}

/// Each node of `row` is held by the plane `f` at its place: entry `l` at
/// `(or, oc + l * side)`.
pub open spec fn row_holds(f: spec_fn(int, int) -> bool, s: Seq<Cell>, row: Seq<usize>, or: int, oc: int, side: int) -> bool {
    forall|l: int| 0 <= l < row.len() ==> #[trigger] crate::evolution::holds(f, s, row[l], or, oc + l * side)
}

proof fn lemma_row_holds_grows(f: spec_fn(int, int) -> bool, s: Seq<Cell>, t: Seq<Cell>, row: Seq<usize>, or: int, oc: int, side: int, d: nat, all_dead: bool)
    requires
        crate::world::nodes_wf(s),
        extends(s, t),
        row_ok(s, row, d, all_dead),
        row_holds(f, s, row, or, oc, side),
    ensures
        row_holds(f, t, row, or, oc, side),
{
    assert forall|l: int| 0 <= l < row.len() implies #[trigger] crate::evolution::holds(f, t, row[l], or, oc + l * side) by {
        assert(handle_ok(s, row[l], d, all_dead));
        crate::evolution::lemma_holds_grows(f, s, t, row[l], or, oc + l * side);
    }
}

proof fn lemma_tiles_grow(f: spec_fn(int, int) -> bool, s: Seq<Cell>, t: Seq<Cell>, g: Seq<Vec<Macro>>, n: nat, size: usize, all_dead: bool, side: nat, or: int, oc: int)
    requires
        crate::world::nodes_wf(s),
        extends(s, t),
        macros_ok(s, g, n, size, all_dead),
        tiles_agree(f, s, g, n, side, or, oc),
    ensures
        tiles_agree(f, t, g, n, side, or, oc),
{
    assert forall|i: int, j: int| #![trigger g[i]@[j]] 0 <= i < n && 0 <= j < n implies agrees(f, t, g[i]@[j], or + i * side, oc + j * side) by {
        let m = g[i]@[j];
        assert(wf_macro(s, m));
        crate::world::lemma_alive_grows(s, t, m.tl as int);
        crate::world::lemma_alive_grows(s, t, m.tr as int);
        crate::world::lemma_alive_grows(s, t, m.bl as int);
        crate::world::lemma_alive_grows(s, t, m.br as int);
        assert forall|r: int, c: int| #[trigger] crate::world::alive_m(t, m, r, c) == crate::world::alive_m(s, m, r, c) by {}
        assert(agrees(f, s, m, or + i * side, oc + j * side));
    }
}

/// A dead spacer is held by any plane that is dead from `(lo_r, lo_c)` on,
/// when it stands in that region.
proof fn lemma_spacer_holds(f: spec_fn(int, int) -> bool, s: Seq<Cell>, h: usize, or: int, oc: int, d: nat, lo_r: int, lo_c: int)
    requires
        h < s.len(),
        forall|r: int, c: int| !#[trigger] alive(s, h as int, r, c),
        forall|r: int, c: int| r >= lo_r || c >= lo_c ==> !#[trigger] f(r, c),
        or >= lo_r || oc >= lo_c,
    ensures
        crate::evolution::holds(f, s, h, or, oc),
{
    assert forall|r: int, c: int| 0 <= r < crate::world::side(s, h as int) && 0 <= c < crate::world::side(s, h as int) implies #[trigger] f(or + r, oc + c) == alive(s, h as int, r, c) by {
        assert(!alive(s, h as int, r, c));
        assert(!f(or + r, oc + c));
    }
}

proof fn lemma_pad_result(s: Seq<Cell>, m: Macro, padded: usize, dp: usize)
    requires
        crate::world::nodes_wf(s),
        wf_macro(s, m),
        LEAVES <= padded < s.len(),
        dp < s.len(),
        dead(s, dp as int),
        depth(s, dp as int) == m.size,
        depth(s, padded as int) == m.size + 2,
        quad(s, quad(s, padded as int).0 as int) == (dp, dp, dp, m.tl),
        quad(s, quad(s, padded as int).1 as int) == (dp, dp, m.tr, dp),
        quad(s, quad(s, padded as int).2 as int) == (dp, m.bl, dp, dp),
        quad(s, quad(s, padded as int).3 as int) == (m.br, dp, dp, dp),
    ensures
        s[padded as int] is Macro,
        wf_macro(s, s[padded as int]->Macro_0),
        s[padded as int]->Macro_0.size == m.size + 1,
        m.is_dead ==> s[padded as int]->Macro_0.is_dead,
        forall|a: int, b: int| #[trigger] crate::world::alive_m(s, s[padded as int]->Macro_0, a, b) == crate::world::alive_m(
            s,
            m,
            a - two_pow((m.size + 1) as nat),
            b - two_pow((m.size + 1) as nat),
        ),
{
    lemma_node(s, padded as int);
    let p = s[padded as int]->Macro_0;
    lemma_node(s, p.tl as int);
    lemma_node(s, p.tr as int);
    lemma_node(s, p.bl as int);
    lemma_node(s, p.br as int);
    crate::evolution::lemma_padded_cells(s, m, p, dp);
}

/// A padded branch is dead outside its central half.
proof fn lemma_padded_ring(s: Seq<Cell>, m: Macro, p: Macro)
    requires
        crate::world::nodes_wf(s),
        wf_macro(s, m),
        p.size == m.size + 1,
        forall|a: int, b: int| #[trigger] crate::world::alive_m(s, p, a, b) == crate::world::alive_m(
            s,
            m,
            a - two_pow((m.size + 1) as nat),
            b - two_pow((m.size + 1) as nat),
        ),
    ensures
        crate::life::dead_outside(
            |x: int, y: int| crate::world::alive_m(s, p, x, y),
            two_pow(p.size as nat) as int,
            3 * two_pow(p.size as nat) as int,
        ),
{
    let q = two_pow((m.size + 1) as nat) as int;
    let fp = |x: int, y: int| crate::world::alive_m(s, p, x, y);
    assert forall|x: int, y: int| !(q <= x < 3 * q && q <= y < 3 * q) implies !#[trigger] fp(x, y) by {
        if crate::world::alive_m(s, m, x - q, y - q) {
            crate::evolution::lemma_alive_m_in_square(s, m, x - q, y - q);
        }
    }
    assert(crate::life::dead_outside(fp, q, 3 * q));
}

fn concat_macros(a: &Vec<Macro>, b: &Vec<Macro>) -> (r: Vec<Macro>)
    ensures
        r@ == a@ + b@,
{
    let mut r: Vec<Macro> = Vec::new();
    let mut i: usize = 0;
    while i < a.len()
        invariant
            i <= a@.len(),
            r@ == a@.subrange(0, i as int),
        decreases a@.len() - i,
    {
        r.push(a[i]);
        i = i + 1;
        assert(r@ =~= a@.subrange(0, i as int));
    }
    let mut j: usize = 0;
    while j < b.len()
        invariant
            j <= b@.len(),
            r@ == a@ + b@.subrange(0, j as int),
        decreases b@.len() - j,
    {
        r.push(b[j]);
        j = j + 1;
        assert(r@ =~= a@ + b@.subrange(0, j as int));
    }
    assert(b@.subrange(0, b@.len() as int) =~= b@);
    r
}

/// `trim` lands on a trimmed node of the arena, lands on the dead leaf for a
/// dead node, and changes nothing when applied again.
pub proof fn lemma_trim(s: Seq<Cell>, h: int)
    requires
        crate::world::nodes_wf(s),
        0 <= h < s.len(),
    ensures
        0 <= trim_of(s, h) < s.len(),
        is_trimmed(s, trim_of(s, h)),
        dead(s, h) ==> trim_of(s, h) == DEAD_BASE,
        trim_of(s, trim_of(s, h)) == trim_of(s, h),
    decreases h,
{
    lemma_node(s, h);
    lemma_node(s, DEAD_BASE as int);
    if s[h] is Macro {
        let m = s[h]->Macro_0;
        if m.tl < h && m.tr < h && m.bl < h && m.br < h {
            lemma_trim(s, m.tl as int);
            lemma_trim(s, m.tr as int);
            lemma_trim(s, m.bl as int);
            lemma_trim(s, m.br as int);
        }
    } else {
        if dead(s, h) {
            assert(crate::world::bits(h) == tile(s, h)@);
        }
    }
}

impl Cell {
    /// Whether every cell of the node is dead, as the node records it.
    pub open spec fn records_dead(&self) -> bool {
        match self {
            Cell::Base(b) => !b@[0] && !b@[1] && !b@[2] && !b@[3],
            Cell::Macro(m) => m.is_dead,
        }
    }

    /// Whether every cell of the node is dead.
    pub fn is_all_dead(&self) -> (r: bool)
        ensures
            r == self.records_dead(),
    {
        match self {
            Cell::Base(b) => !b[0] && !b[1] && !b[2] && !b[3],
            Cell::Macro(m) => m.is_dead,
        }
    }

    /// The branch inside a node that is known to be one.
    pub fn unwrap_macro(&self) -> (m: Macro)
        requires
            self is Macro,
        ensures
            m == self->Macro_0,
    {
        match self {
            Cell::Macro(m) => *m,
            Cell::Base(_) => {
                proof {
                    assert(false);
                }
                Macro { tl: 0, tr: 0, bl: 0, br: 0, result: 0, size: 0, is_dead: true }
            },
        }
    }

    /// The handle of `m` in `world`, registering `m` if no branch with its
    /// children is known yet.
    pub fn try_wrap(m: Macro, world: &mut World) -> (h: usize)
        requires
            old(world).wf(),
            wf_macro(old(world)@, m),
        ensures
            final(world).wf(),
            grows(old(world)@, final(world)@),
            LEAVES <= h < final(world)@.len(),
            quad(final(world)@, h as int) == m.quad(),
            (exists|i: int| LEAVES <= i < old(world)@.len() && #[trigger] quad(old(world)@, i) == m.quad())
                ==> final(world)@ == old(world)@,
            !(exists|i: int| LEAVES <= i < old(world)@.len() && #[trigger] quad(old(world)@, i) == m.quad())
                ==> final(world)@ == old(world)@.push(Cell::Macro(m)) && h == old(world)@.len(),
    {
        let q = Quarters::new(m.tl, m.tr, m.bl, m.br);
        match world.try_build(&q) {
            Some(h) => {
                proof {
                    crate::world::lemma_grows(world@, world@);
                }
                h
            },
            None => world.blueprint(q, m),
        }
    }

    /// The result handle of a branch whose children are the branches `mtl`,
    /// `mtr`, `mbl`, `mbr`: nine overlapping blocks, their results combined
    /// into four quarters, and the results of those combined once more.
    #[verifier::rlimit(100)]
    #[verifier::spinoff_prover]
    fn step_macro(
        tl: usize,
        tr: usize,
        bl: usize,
        br: usize,
        mtl: &Macro,
        mtr: &Macro,
        mbl: &Macro,
        mbr: &Macro,
        is_dead: Ghost<bool>,
        world: &mut World,
    ) -> (r: usize)
        requires
            old(world).wf(),
            tl < old(world)@.len() && old(world)@[tl as int] == Cell::Macro(*mtl),
            tr < old(world)@.len() && old(world)@[tr as int] == Cell::Macro(*mtr),
            bl < old(world)@.len() && old(world)@[bl as int] == Cell::Macro(*mbl),
            br < old(world)@.len() && old(world)@[br as int] == Cell::Macro(*mbr),
            wf_macro(old(world)@, *mtl),
            wf_macro(old(world)@, *mtr),
            wf_macro(old(world)@, *mbl),
            wf_macro(old(world)@, *mbr),
            mtr.size == mtl.size,
            mbl.size == mtl.size,
            mbr.size == mtl.size,
        ensures
            final(world).wf(),
            grows(old(world)@, final(world)@),
            r < final(world)@.len(),
            depth(final(world)@, r as int) == mtl.size + 1,
            mtl.is_dead && mtr.is_dead && mbl.is_dead && mbr.is_dead ==> dead(final(world)@, r as int),
            evolves(
                final(world)@,
                (Macro { tl, tr, bl, br, result: r, size: (mtl.size + 1) as usize, is_dead: is_dead@ }),
            ),
        decreases mtl.size as int, 3int,
    {
        let ghost s0 = world@;
        // the five overlapping blocks between the four children
        let tm = Macro::horiz(&mtl, &mtr, world);
        let bm = Macro::horiz(&mbl, &mbr, world);
        let ml = Macro::vert(&mtl, &mbl, world);
        let mr = Macro::vert(&mtr, &mbr, world);
        let mm = Macro::center(&mtl, &mtr, &mbl, &mbr, world);
        // the four quarters, half-way in time
        let rtl = Macro::consolidate(&mtl, &tm, &ml, &mm, world);
        let rtr = Macro::consolidate(&tm, &mtr, &mm, &mr, world);
        let rbl = Macro::consolidate(&ml, &mm, &mbl, &bm, world);
        let rbr = Macro::consolidate(&mm, &mr, &bm, &mbr, world);
        let result = Macro::consolidate(&rtl, &rtr, &rbl, &rbr, world);
        let r = Cell::try_wrap(result, world);
        proof {
            let s = world@;
            assert(crate::world::node_ok(s, r as int));
            lemma_node(s0, tl as int);
            lemma_node(s0, tr as int);
            lemma_node(s0, bl as int);
            lemma_node(s0, br as int);
            assert(s[tl as int] == s0[tl as int]);
            assert(s[tr as int] == s0[tr as int]);
            assert(s[bl as int] == s0[bl as int]);
            assert(s[br as int] == s0[br as int]);
            let n = Macro { tl, tr, bl, br, result: r, size: (mtl.size + 1) as usize, is_dead: is_dead@ };
            assert(crate::evolution::two_levels(s, n, mtl.size as nat));
            crate::evolution::lemma_evolves_step(
                s, n, mtl.size as nat, *mtl, tm, *mtr, ml, mm, mr, *mbl, bm, *mbr, rtl, rtr, rbl, rbr,
            );
        }
        r
    }

    /// The canonical branch with children `tl`, `tr`, `bl`, `br`, built and
    /// registered (with its result) if it does not exist yet.
    pub fn new(tl: usize, tr: usize, bl: usize, br: usize, world: &mut World) -> (h: usize)
        requires
            old(world).wf(),
            tl < old(world)@.len(),
            tr < old(world)@.len(),
            bl < old(world)@.len(),
            br < old(world)@.len(),
            depth(old(world)@, tr as int) == depth(old(world)@, tl as int),
            depth(old(world)@, bl as int) == depth(old(world)@, tl as int),
            depth(old(world)@, br as int) == depth(old(world)@, tl as int),
        ensures
            final(world).wf(),
            grows(old(world)@, final(world)@),
            LEAVES <= h < final(world)@.len(),
            quad(final(world)@, h as int) == (tl, tr, bl, br),
            depth(final(world)@, h as int) == depth(old(world)@, tl as int) + 1,
            (exists|i: int| LEAVES <= i < old(world)@.len() && #[trigger] quad(old(world)@, i) == (tl, tr, bl, br))
                ==> final(world)@ == old(world)@,
        decreases depth(old(world)@, tl as int) as int, 1int,
    {
        let ghost s0 = world@;
        if let Some(h) = world.try_build(&Quarters::new(tl, tr, bl, br)) {
            proof {
                lemma_node(s0, h as int);
                crate::world::lemma_grows(s0, s0);
            }
            return h;
        }
        let c_tl = world.get(tl);
        let c_tr = world.get(tr);
        let c_bl = world.get(bl);
        let c_br = world.get(br);
        proof {
            lemma_node(s0, tl as int);
            lemma_node(s0, tr as int);
            lemma_node(s0, bl as int);
            lemma_node(s0, br as int);
        }
        let is_dead = c_tl.is_all_dead() && c_tr.is_all_dead() && c_bl.is_all_dead()
            && c_br.is_all_dead();
        let m = match (c_tl, c_tr, c_bl, c_br) {
            (Cell::Macro(mtl), Cell::Macro(mtr), Cell::Macro(mbl), Cell::Macro(mbr)) => {
                proof {
                    lemma_node(s0, tl as int);
                    lemma_node(s0, tr as int);
                    lemma_node(s0, bl as int);
                    lemma_node(s0, br as int);
                }
                let r = Cell::step_macro(tl, tr, bl, br, &mtl, &mtr, &mbl, &mbr, Ghost(is_dead), world);
                Macro { tl, tr, bl, br, result: r, size: mtl.size + 1, is_dead }
            },
            (Cell::Base(a), Cell::Base(b), Cell::Base(c), Cell::Base(d)) => {
                let t = leaf_step(&a, &b, &c, &d);
                let r = World::leaf(t);
                let m = Macro { tl, tr, bl, br, result: r, size: 0, is_dead };
                proof {
                    assert(crate::world::leaf_ok(world@, r as int));
                    crate::theorems::lemma_evolves_leaf(world@, m);
                }
                m
            },
            _ => {
                proof {
                    assert(false);
                }
                Macro { tl, tr, bl, br, result: 0, size: 0, is_dead }
            },
        };
        let h = Cell::try_wrap(m, world);
        proof {
            assert(crate::world::node_ok(world@, h as int));
        }
        h
    }

    /// The smallest node holding the same live cells: through each branch
    /// with one live child, down to that child; a dead node gives the dead
    /// leaf.
    pub fn trim(cell: usize, world: &World) -> (r: usize)
        requires
            world.wf(),
            cell < world@.len(),
        ensures
            r as int == trim_of(world@, cell as int),
            r < world@.len(),
        decreases cell,
    {
        proof {
            lemma_node(world@, cell as int);
        }
        match world.get(cell) {
            Cell::Base(_) => cell,
            Cell::Macro(m) => {
                let a = world.get(m.tl).is_all_dead();
                let b = world.get(m.tr).is_all_dead();
                let c = world.get(m.bl).is_all_dead();
                let d = world.get(m.br).is_all_dead();
                if a && b && c && d {
                    DEAD_BASE
                } else if !a && b && c && d {
                    Cell::trim(m.tl, world)
                } else if a && !b && c && d {
                    Cell::trim(m.tr, world)
                } else if a && b && !c && d {
                    Cell::trim(m.bl, world)
                } else if a && b && c && !d {
                    Cell::trim(m.br, world)
                } else {
                    cell
                }
            },
        }
    }

    /// The dead branch of the given size.
    pub fn dead_of_size(size: usize, world: &mut World) -> (h: usize)
        requires
            old(world).wf(),
        ensures
            final(world).wf(),
            grows(old(world)@, final(world)@),
            h < final(world)@.len(),
            depth(final(world)@, h as int) == size + 1,
            dead(final(world)@, h as int),
        decreases size,
    {
        proof {
            lemma_node(world@, DEAD_BASE as int);
        }
        let smaller = if size == 0 {
            DEAD_BASE
        } else {
            Cell::dead_of_size(size - 1, world)
        };
        let h = Cell::new(smaller, smaller, smaller, smaller, world);
        proof {
            lemma_node(world@, h as int);
        }
        h
    }

    /// The four children of a padded branch: each child of `macro_cell` in
    /// the corner of a branch that is dead elsewhere, facing the centre.
    #[verifier::rlimit(100)]
    #[verifier::spinoff_prover]
    fn pad_ring(macro_cell: Macro, dp: usize, world: &mut World) -> (q: (usize, usize, usize, usize))
        requires
            old(world).wf(),
            wf_macro(old(world)@, macro_cell),
            dp < old(world)@.len(),
            depth(old(world)@, dp as int) == macro_cell.size,
        ensures
            final(world).wf(),
            grows(old(world)@, final(world)@),
            LEAVES <= q.0 < final(world)@.len() && LEAVES <= q.1 < final(world)@.len(),
            LEAVES <= q.2 < final(world)@.len() && LEAVES <= q.3 < final(world)@.len(),
            quad(final(world)@, q.0 as int) == (dp, dp, dp, macro_cell.tl),
            quad(final(world)@, q.1 as int) == (dp, dp, macro_cell.tr, dp),
            quad(final(world)@, q.2 as int) == (dp, macro_cell.bl, dp, dp),
            quad(final(world)@, q.3 as int) == (macro_cell.br, dp, dp, dp),
            depth(final(world)@, q.0 as int) == macro_cell.size + 1,
            depth(final(world)@, q.1 as int) == macro_cell.size + 1,
            depth(final(world)@, q.2 as int) == macro_cell.size + 1,
            depth(final(world)@, q.3 as int) == macro_cell.size + 1,
    {
        let ptl = Cell::new(dp, dp, dp, macro_cell.tl, world);
        let ptr = Cell::new(dp, dp, macro_cell.tr, dp, world);
        let pbl = Cell::new(dp, macro_cell.bl, dp, dp, world);
        let pbr = Cell::new(macro_cell.br, dp, dp, dp, world);
        (ptl, ptr, pbl, pbr)
    }

    /// Surrounds a branch by a ring of dead space: the result is one size
    /// larger and holds `macro_cell` at its centre.
    #[verifier::rlimit(100)]
    #[verifier::spinoff_prover]
    fn pad_cell(macro_cell: Macro, world: &mut World) -> (r: Macro)
        requires
            old(world).wf(),
            wf_macro(old(world)@, macro_cell),
        ensures
            final(world).wf(),
            grows(old(world)@, final(world)@),
            wf_macro(final(world)@, r),
            r.size == macro_cell.size + 1,
            macro_cell.is_dead ==> r.is_dead,
            forall|a: int, b: int| #[trigger] crate::world::alive_m(final(world)@, r, a, b) == crate::world::alive_m(
                final(world)@,
                macro_cell,
                a - two_pow((macro_cell.size + 1) as nat),
                b - two_pow((macro_cell.size + 1) as nat),
            ),
    {
        proof {
            lemma_node(world@, DEAD_BASE as int);
            lemma_node(world@, macro_cell.tl as int);
        }
        let dp = if macro_cell.size == 0 {
            DEAD_BASE
        } else {
            Cell::dead_of_size(macro_cell.size - 1, world)
        };
        let (ptl, ptr, pbl, pbr) = Cell::pad_ring(macro_cell, dp, world);
        let padded = Cell::new(ptl, ptr, pbl, pbr, world);
        proof {
            lemma_pad_result(world@, macro_cell, padded, dp);
        }
        world.get(padded).unwrap_macro()
    }

    /// The tiling of `m` by its sub-branches of the given size, as a square
    /// grid in reading order.
    fn macro_grid(
        m: Macro,
        size: usize,
        world: &World,
        f: Ghost<spec_fn(int, int) -> bool>,
        or: Ghost<int>,
        oc: Ghost<int>,
    ) -> (g: Vec<Vec<Macro>>)
        requires
            world.wf(),
            wf_macro(world@, m),
            size <= m.size,
            agrees(f@, world@, m, or@, oc@),
        ensures
            macros_ok(world@, g@, two_pow((m.size - size) as nat), size, m.is_dead),
            tiles_agree(f@, world@, g@, two_pow((m.size - size) as nat), two_pow((size + 2) as nat), or@, oc@),
        decreases m.size - size,
    {
        let ghost s = world@;
        let ghost big = two_pow((size + 2) as nat) as int;
        assert(big == 2 * two_pow((size + 1) as nat));
        if m.size == size {
            let g = vec![vec![m]];
            assert(g@[0]@ =~= seq![m]);
            assert(agrees(f@, s, g@[0]@[0], or@ + 0 * big, oc@ + 0 * big));
            return g;
        }
        proof {
            lemma_node(world@, m.tl as int);
            lemma_node(world@, m.tr as int);
            lemma_node(world@, m.bl as int);
            lemma_node(world@, m.br as int);
        }
        let ghost half = two_pow((m.size + 1) as nat) as int;
        proof {
            crate::evolution::lemma_agrees_children(f@, s, m, or@, oc@);
            crate::evolution::lemma_holds_node(f@, s, m.tl, or@, oc@);
            crate::evolution::lemma_holds_node(f@, s, m.tr, or@, oc@ + half);
            crate::evolution::lemma_holds_node(f@, s, m.bl, or@ + half, oc@);
            crate::evolution::lemma_holds_node(f@, s, m.br, or@ + half, oc@ + half);
        }
        let tl = Cell::macro_grid(world.get(m.tl).unwrap_macro(), size, world, f, or, oc);
        let tr = Cell::macro_grid(world.get(m.tr).unwrap_macro(), size, world, f, or, Ghost(oc@ + half));
        let bl = Cell::macro_grid(world.get(m.bl).unwrap_macro(), size, world, f, Ghost(or@ + half), oc);
        let br = Cell::macro_grid(world.get(m.br).unwrap_macro(), size, world, f, Ghost(or@ + half), Ghost(oc@ + half));
        let ghost n = two_pow((m.size - 1 - size) as nat);
        assert(two_pow((m.size - size) as nat) == 2 * n);
        proof {
            crate::world::lemma_two_pow_mul((m.size - 1 - size) as nat, (size + 2) as nat);
            assert(n * big == half);
        }
        let mut grid: Vec<Vec<Macro>> = Vec::new();
        let mut i: usize = 0;
        while i < tl.len()
            invariant
                i <= n,
                macros_ok(world@, tl@, n, size, m.is_dead),
                macros_ok(world@, tr@, n, size, m.is_dead),
                tiles_agree(f@, s, tl@, n, big as nat, or@, oc@),
                tiles_agree(f@, s, tr@, n, big as nat, or@, oc@ + half),
                tiles_agree(f@, s, bl@, n, big as nat, or@ + half, oc@),
                tiles_agree(f@, s, br@, n, big as nat, or@ + half, oc@ + half),
                s == world@,
                n * big == half,
                grid@.len() == i,
                forall|k: int| #![trigger grid@[k]] 0 <= k < i ==> grid@[k]@ == tl@[k]@ + tr@[k]@,
            decreases n - i,
        {
            grid.push(concat_macros(&tl[i], &tr[i]));
            i = i + 1;
        }
        let mut i: usize = 0;
        while i < bl.len()
            invariant
                i <= n,
                macros_ok(world@, bl@, n, size, m.is_dead),
                macros_ok(world@, br@, n, size, m.is_dead),
                tiles_agree(f@, s, tl@, n, big as nat, or@, oc@),
                tiles_agree(f@, s, tr@, n, big as nat, or@, oc@ + half),
                tiles_agree(f@, s, bl@, n, big as nat, or@ + half, oc@),
                tiles_agree(f@, s, br@, n, big as nat, or@ + half, oc@ + half),
                s == world@,
                n * big == half,

                grid@.len() == n + i,
                forall|k: int| #![trigger grid@[k]] 0 <= k < n ==> grid@[k]@ == tl@[k]@ + tr@[k]@,
                forall|k: int| #![trigger grid@[k]] n <= k < n + i ==> grid@[k]@ == bl@[k - n]@ + br@[k - n]@,
            decreases n - i,
        {
            grid.push(concat_macros(&bl[i], &br[i]));
            i = i + 1;
        }
        proof {
            assert forall|a: int, b: int| #![trigger grid@[a]@[b]] 0 <= a < 2 * n && 0 <= b < 2 * n implies wf_macro(world@, grid@[a]@[b]) && grid@[a]@[b].size == size && (m.is_dead ==> grid@[a]@[b].is_dead) by {
                if a < n {
                    assert(grid@[a]@ == tl@[a]@ + tr@[a]@);
                    if b < n {
                        assert(grid@[a]@[b] == tl@[a]@[b]);
                    } else {
                        assert(grid@[a]@[b] == tr@[a]@[b - n]);
                    }
                } else {
                    assert(grid@[a]@ == bl@[a - n]@ + br@[a - n]@);
                    if b < n {
                        assert(grid@[a]@[b] == bl@[a - n]@[b]);
                    } else {
                        assert(grid@[a]@[b] == br@[a - n]@[b - n]);
                    }
                }
            }
            assert forall|a: int, b: int| #![trigger grid@[a]@[b]] 0 <= a < 2 * n && 0 <= b < 2 * n implies agrees(f@, s, grid@[a]@[b], or@ + a * big, oc@ + b * big) by {
                if a < n {
                    assert(grid@[a]@ == tl@[a]@ + tr@[a]@);
                    if b < n {
                        assert(grid@[a]@[b] == tl@[a]@[b]);
                    } else {
                        assert(grid@[a]@[b] == tr@[a]@[b - n]);
                        assert(agrees(f@, s, tr@[a]@[b - n], or@ + a * big, oc@ + half + (b - n) * big));
                        assert(oc@ + half + (b - n) * big == oc@ + b * big) by (nonlinear_arith)
                            requires n * big == half;
                    }
                } else {
                    assert(grid@[a]@ == bl@[a - n]@ + br@[a - n]@);
                    assert(or@ + half + (a - n) * big == or@ + a * big) by (nonlinear_arith)
                        requires n * big == half;
                    if b < n {
                        assert(grid@[a]@[b] == bl@[a - n]@[b]);
                        assert(agrees(f@, s, bl@[a - n]@[b], or@ + half + (a - n) * big, oc@ + b * big));
                    } else {
                        assert(grid@[a]@[b] == br@[a - n]@[b - n]);
                        assert(agrees(f@, s, br@[a - n]@[b - n], or@ + half + (a - n) * big, oc@ + half + (b - n) * big));
                        assert(oc@ + half + (b - n) * big == oc@ + b * big) by (nonlinear_arith)
                            requires n * big == half;
                    }
                }
            }
        }
        grid
    }

    /// One pass in time over an `n` by `n` grid of branches of size `e`:
    /// the results of the tiles and of the blocks straddling each pair of
    /// neighbours, `2^e` generations on, as a `2n` by `2n` grid whose last row
    /// and column are dead spacers. Where the tiles are held by a plane `f`
    /// whose future stays clear of the far edges, the grid is held by `f`
    /// `2^e` generations on, shifted by `2^e`.
    #[verifier::rlimit(100)]
    #[verifier::spinoff_prover]
    fn convolve_grid(
        grid: Vec<Vec<Macro>>,
        world: &mut World,
        all_dead: Ghost<bool>,
        f: Ghost<spec_fn(int, int) -> bool>,
        or: Ghost<int>,
        oc: Ghost<int>,
    ) -> (stepped: Vec<Vec<usize>>)
        requires
            old(world).wf(),
            grid@.len() >= 1,
            macros_ok(old(world)@, grid@, grid@.len() as nat, grid@[0]@[0].size, all_dead@),
        ensures
            final(world).wf(),
            grows(old(world)@, final(world)@),
            rows_ok(final(world)@, stepped@, 2 * grid@.len(), 2 * grid@.len(), grid@[0]@[0].size as nat, all_dead@),
            tiles_agree(f@, old(world)@, grid@, grid@.len() as nat, two_pow((grid@[0]@[0].size + 2) as nat), or@, oc@)
                && far_edge_clear(f@, grid@.len() as int, grid@[0]@[0].size as nat, or@, oc@) ==> grid_holds(
                generations(f@, two_pow(grid@[0]@[0].size as nat)),
                final(world)@,
                stepped@,
                2 * grid@.len(),
                2 * grid@.len(),
                2 * two_pow(grid@[0]@[0].size as nat) as int,
                or@ + two_pow(grid@[0]@[0].size as nat),
                oc@ + two_pow(grid@[0]@[0].size as nat),
            ),
    {
        let ghost s0 = world@;
        let n = grid.len();
        let size = grid[0][0].size;
        let ghost all_dead = all_dead@;
        let ghost t = two_pow(size as nat) as int;
        let ghost big = two_pow((size + 2) as nat) as int;
        let ghost later = generations(f@, t as nat);
        let ghost ro = or@ + t;
        let ghost co = oc@ + t;
        let ghost ok = tiles_agree(f@, s0, grid@, n as nat, big as nat, or@, oc@)
            && far_edge_clear(f@, n as int, size as nat, or@, oc@);
        assert(two_pow((size + 1) as nat) == 2 * t);
        assert(big == 4 * t);
        proof {
            lemma_node(world@, DEAD_BASE as int);
            crate::world::lemma_two_pow_pos(size as nat);
        }
        let spacer = if size == 0 {
            DEAD_BASE
        } else {
            Cell::dead_of_size(size - 1, world)
        };
        proof {
            lemma_macros_grow(s0, world@, grid@, n as nat, size, all_dead);
            crate::theorems::lemma_dead_iff_empty(world@, spacer as int);
            if ok {
                lemma_tiles_grow(f@, s0, world@, grid@, n as nat, size, all_dead, big as nat, or@, oc@);
            }
        }
        let ghost sp = spacer;
        let mut stepped: Vec<Vec<usize>> = Vec::new();
        let mut i: usize = 0;
        while i < n
            invariant
                i <= n,
                n == grid@.len(),
                size == grid@[0]@[0].size,
                t == two_pow(size as nat),
                t > 0,
                big == 4 * t,
                two_pow((size + 1) as nat) == 2 * t,
                later == generations(f@, t as nat),
                ro == or@ + t,
                co == oc@ + t,
                ok ==> forall|r: int, c: int|
                    r >= or@ + n * big - t || c >= oc@ + n * big - t ==> !#[trigger] later(r, c),
                world.wf(),
                grows(s0, world@),
                handle_ok(world@, spacer, size as nat, all_dead),
                dead(world@, spacer as int),
                forall|r: int, c: int| !#[trigger] alive(world@, spacer as int, r, c),
                macros_ok(world@, grid@, n as nat, size, all_dead),
                ok ==> tiles_agree(f@, world@, grid@, n as nat, big as nat, or@, oc@),
                rows_ok(world@, stepped@, 2 * i as nat, 2 * n as nat, size as nat, all_dead),
                ok ==> grid_holds(later, world@, stepped@, 2 * i as nat, 2 * n as nat, 2 * t, ro, co),
            decreases n - i,
        {
            // the row through the centres of the tiles of row i
            let mut row: Vec<usize> = Vec::new();
            let mut j: usize = 0;
            while j < n
                invariant
                    i < n,
                    j <= n,
                    n == grid@.len(),
                    size == grid@[0]@[0].size,
                    t == two_pow(size as nat),
                    t > 0,
                    big == 4 * t,
                    two_pow((size + 1) as nat) == 2 * t,
                    later == generations(f@, t as nat),
                    ro == or@ + t,
                    co == oc@ + t,
                    world.wf(),
                    grows(s0, world@),
                    handle_ok(world@, spacer, size as nat, all_dead),
                    macros_ok(world@, grid@, n as nat, size, all_dead),
                    ok ==> tiles_agree(f@, world@, grid@, n as nat, big as nat, or@, oc@),
                    rows_ok(world@, stepped@, 2 * i as nat, 2 * n as nat, size as nat, all_dead),
                    ok ==> grid_holds(later, world@, stepped@, 2 * i as nat, 2 * n as nat, 2 * t, ro, co),
                    row@.len() == if j == 0 { 0 } else { 2 * j - 1 },
                    row_ok(world@, row@, size as nat, all_dead),
                    ok ==> row_holds(later, world@, row@, ro + (2 * i) * (2 * t), co, 2 * t),
                    dead(world@, spacer as int),
                    ok ==> forall|r: int, c: int|
                        r >= or@ + n * big - t || c >= oc@ + n * big - t ==> !#[trigger] later(r, c),
                decreases n - j,
            {
                let ghost w0 = world@;
                if j > 0 {
                    let joined = Macro::horiz(&grid[i][j - 1], &grid[i][j], world);
                    proof {
                        let w1 = world@;
                        lemma_node(w1, joined.result as int);
                        lemma_row_grows(w0, w1, row@, size as nat, all_dead);
                        lemma_rows_grow(w0, w1, stepped@, 2 * i as nat, 2 * n as nat, size as nat, all_dead);
                        lemma_macros_grow(w0, w1, grid@, n as nat, size, all_dead);
                        if ok {
                            lemma_tiles_grow(f@, w0, w1, grid@, n as nat, size, all_dead, big as nat, or@, oc@);
                            crate::evolution::lemma_grid_holds_grows(later, w0, w1, stepped@, 2 * i as nat, 2 * n as nat, 2 * t, ro, co, size as nat, all_dead);
                            lemma_row_holds_grows(later, w0, w1, row@, ro + (2 * i) * (2 * t), co, 2 * t, size as nat, all_dead);
                            let a = grid@[i as int]@[j - 1];
                            let b = grid@[i as int]@[j as int];
                            assert(agrees(f@, w1, a, or@ + i * big, oc@ + (j - 1) * big));
                            assert(agrees(f@, w1, b, or@ + i * big, oc@ + j * big));
                            assert(oc@ + j * big == oc@ + (j - 1) * big + 2 * (2 * t)) by (nonlinear_arith)
                                requires big == 4 * t;
                            crate::evolution::lemma_horiz_agrees(f@, w1, a, b, joined, or@ + i * big, oc@ + (j - 1) * big);
                            crate::evolution::lemma_result_holds(f@, w1, joined, or@ + i * big, oc@ + (j - 1) * big + 2 * t);
                            assert(or@ + i * big + t == ro + (2 * i) * (2 * t)) by (nonlinear_arith)
                                requires big == 4 * t, ro == or@ + t;
                            assert(oc@ + (j - 1) * big + 2 * t + t == co + (2 * j - 1) * (2 * t)) by (nonlinear_arith)
                                requires big == 4 * t, co == oc@ + t;
                        }
                    }
                    row.push(joined.result);
                }
                let tile = grid[i][j];
                proof {
                    let w1 = world@;
                    lemma_node(w1, tile.result as int);
                    if ok {
                        crate::evolution::lemma_result_holds(f@, w1, tile, or@ + i * big, oc@ + j * big);
                        assert(or@ + i * big + t == ro + (2 * i) * (2 * t)) by (nonlinear_arith)
                            requires big == 4 * t, ro == or@ + t;
                        assert(oc@ + j * big + t == co + (2 * j) * (2 * t)) by (nonlinear_arith)
                            requires big == 4 * t, co == oc@ + t;
                    }
                }
                row.push(tile.result);
                j = j + 1;
            }
            proof {
                crate::theorems::lemma_dead_iff_empty(world@, spacer as int);
                if ok {
                    assert(co + (2 * n - 1) * (2 * t) == oc@ + n * big - t) by (nonlinear_arith)
                        requires big == 4 * t, co == oc@ + t;
                    lemma_spacer_holds(later, world@, spacer, ro + (2 * i) * (2 * t), co + (2 * n - 1) * (2 * t), size as nat, or@ + n * big - t, oc@ + n * big - t);
                }
            }
            row.push(spacer);
            proof {
                if ok {
                    assert(rows_ok(world@, stepped@.push(row), 2 * i as nat + 1, 2 * n as nat, size as nat, all_dead));
                }
            }
            stepped.push(row);
            // the row between tile rows i and i + 1
            let mut row: Vec<usize> = Vec::new();
            let mut j: usize = 0;
            while j < n
                invariant
                    i < n,
                    j <= n,
                    n == grid@.len(),
                    size == grid@[0]@[0].size,
                    t == two_pow(size as nat),
                    t > 0,
                    big == 4 * t,
                    two_pow((size + 1) as nat) == 2 * t,
                    later == generations(f@, t as nat),
                    ro == or@ + t,
                    co == oc@ + t,
                    ok ==> forall|r: int, c: int|
                        r >= or@ + n * big - t || c >= oc@ + n * big - t ==> !#[trigger] later(r, c),
                    world.wf(),
                    grows(s0, world@),
                    handle_ok(world@, spacer, size as nat, all_dead),
                    dead(world@, spacer as int),
                    forall|r: int, c: int| !#[trigger] alive(world@, spacer as int, r, c),
                    macros_ok(world@, grid@, n as nat, size, all_dead),
                    ok ==> tiles_agree(f@, world@, grid@, n as nat, big as nat, or@, oc@),
                    rows_ok(world@, stepped@, 2 * i as nat + 1, 2 * n as nat, size as nat, all_dead),
                    ok ==> grid_holds(later, world@, stepped@, 2 * i as nat + 1, 2 * n as nat, 2 * t, ro, co),
                    row@.len() == if j == 0 { 0 } else { 2 * j - 1 },
                    row_ok(world@, row@, size as nat, all_dead),
                    ok ==> row_holds(later, world@, row@, ro + (2 * i + 1) * (2 * t), co, 2 * t),
                decreases n - j,
            {
                let ghost w0 = world@;
                if i + 1 < n {
                    if j > 0 {
                        let mid = Macro::center(&grid[i][j - 1], &grid[i][j], &grid[i + 1][j - 1], &grid[i + 1][j], world);
                        proof {
                            let w1 = world@;
                            lemma_node(w1, mid.result as int);
                            lemma_row_grows(w0, w1, row@, size as nat, all_dead);
                            lemma_rows_grow(w0, w1, stepped@, 2 * i as nat + 1, 2 * n as nat, size as nat, all_dead);
                            lemma_macros_grow(w0, w1, grid@, n as nat, size, all_dead);
                            crate::theorems::lemma_dead_iff_empty(w1, spacer as int);
                            if ok {
                                lemma_tiles_grow(f@, w0, w1, grid@, n as nat, size, all_dead, big as nat, or@, oc@);
                                crate::evolution::lemma_grid_holds_grows(later, w0, w1, stepped@, 2 * i as nat + 1, 2 * n as nat, 2 * t, ro, co, size as nat, all_dead);
                                lemma_row_holds_grows(later, w0, w1, row@, ro + (2 * i + 1) * (2 * t), co, 2 * t, size as nat, all_dead);
                                let a = grid@[i as int]@[j - 1];
                                let b = grid@[i as int]@[j as int];
                                let c = grid@[i + 1]@[j - 1];
                                let d = grid@[i + 1]@[j as int];
                                assert(agrees(f@, w1, a, or@ + i * big, oc@ + (j - 1) * big));
                                assert(agrees(f@, w1, b, or@ + i * big, oc@ + j * big));
                                assert(agrees(f@, w1, c, or@ + (i + 1) * big, oc@ + (j - 1) * big));
                                assert(agrees(f@, w1, d, or@ + (i + 1) * big, oc@ + j * big));
                                assert(oc@ + j * big == oc@ + (j - 1) * big + 2 * (2 * t)) by (nonlinear_arith)
                                    requires big == 4 * t;
                                assert(or@ + (i + 1) * big == or@ + i * big + 2 * (2 * t)) by (nonlinear_arith)
                                    requires big == 4 * t;
                                crate::evolution::lemma_center_agrees(f@, w1, a, b, c, d, mid, or@ + i * big, oc@ + (j - 1) * big);
                                crate::evolution::lemma_result_holds(f@, w1, mid, or@ + i * big + 2 * t, oc@ + (j - 1) * big + 2 * t);
                                assert(or@ + i * big + 2 * t + t == ro + (2 * i + 1) * (2 * t)) by (nonlinear_arith)
                                    requires big == 4 * t, ro == or@ + t;
                                assert(oc@ + (j - 1) * big + 2 * t + t == co + (2 * j - 1) * (2 * t)) by (nonlinear_arith)
                                    requires big == 4 * t, co == oc@ + t;
                            }
                        }
                        row.push(mid.result);
                    }
                    let ghost w1 = world@;
                    let below = Macro::vert(&grid[i][j], &grid[i + 1][j], world);
                    proof {
                        let w2 = world@;
                        lemma_node(w2, below.result as int);
                        lemma_row_grows(w1, w2, row@, size as nat, all_dead);
                        lemma_rows_grow(w1, w2, stepped@, 2 * i as nat + 1, 2 * n as nat, size as nat, all_dead);
                        lemma_macros_grow(w1, w2, grid@, n as nat, size, all_dead);
                        crate::theorems::lemma_dead_iff_empty(w2, spacer as int);
                        if ok {
                            lemma_tiles_grow(f@, w1, w2, grid@, n as nat, size, all_dead, big as nat, or@, oc@);
                            crate::evolution::lemma_grid_holds_grows(later, w1, w2, stepped@, 2 * i as nat + 1, 2 * n as nat, 2 * t, ro, co, size as nat, all_dead);
                            lemma_row_holds_grows(later, w1, w2, row@, ro + (2 * i + 1) * (2 * t), co, 2 * t, size as nat, all_dead);
                            let a = grid@[i as int]@[j as int];
                            let c = grid@[i + 1]@[j as int];
                            assert(agrees(f@, w2, a, or@ + i * big, oc@ + j * big));
                            assert(agrees(f@, w2, c, or@ + (i + 1) * big, oc@ + j * big));
                            assert(or@ + (i + 1) * big == or@ + i * big + 2 * (2 * t)) by (nonlinear_arith)
                                requires big == 4 * t;
                            crate::evolution::lemma_vert_agrees(f@, w2, a, c, below, or@ + i * big, oc@ + j * big);
                            crate::evolution::lemma_result_holds(f@, w2, below, or@ + i * big + 2 * t, oc@ + j * big);
                            assert(or@ + i * big + 2 * t + t == ro + (2 * i + 1) * (2 * t)) by (nonlinear_arith)
                                requires big == 4 * t, ro == or@ + t;
                            assert(oc@ + j * big + t == co + (2 * j) * (2 * t)) by (nonlinear_arith)
                                requires big == 4 * t, co == oc@ + t;
                        }
                    }
                    row.push(below.result);
                } else {
                    proof {
                        if ok {
                            assert(ro + (2 * i + 1) * (2 * t) == or@ + n * big - t) by (nonlinear_arith)
                                requires big == 4 * t, ro == or@ + t, i + 1 == n;
                            lemma_spacer_holds(later, world@, spacer, ro + (2 * i + 1) * (2 * t), co + (2 * j - 1) * (2 * t), size as nat, or@ + n * big - t, oc@ + n * big - t);
                            lemma_spacer_holds(later, world@, spacer, ro + (2 * i + 1) * (2 * t), co + (2 * j) * (2 * t), size as nat, or@ + n * big - t, oc@ + n * big - t);
                        }
                    }
                    if j > 0 {
                        row.push(spacer);
                    }
                    row.push(spacer);
                }
                j = j + 1;
            }
            proof {
                if ok {
                    assert(co + (2 * n - 1) * (2 * t) == oc@ + n * big - t) by (nonlinear_arith)
                        requires big == 4 * t, co == oc@ + t;
                    lemma_spacer_holds(later, world@, spacer, ro + (2 * i + 1) * (2 * t), co + (2 * n - 1) * (2 * t), size as nat, or@ + n * big - t, oc@ + n * big - t);
                }
            }
            row.push(spacer);
            stepped.push(row);
            i = i + 1;
        }
        stepped
    }

    /// Joins each 2x2 block of a grid of `2r` rows of `2c` nodes into one node:
    /// a grid of `r` rows of `c` nodes.
    pub(crate) fn build_up(grid: Vec<Vec<usize>>, world: &mut World, d: Ghost<nat>, a: Ghost<bool>) -> (joined: Vec<Vec<usize>>)
        requires
            old(world).wf(),
            grid@.len() >= 2,
            grid@.len() % 2 == 0,
            grid@[0]@.len() >= 2,
            grid@[0]@.len() % 2 == 0,
            rows_ok(old(world)@, grid@, grid@.len() as nat, grid@[0]@.len() as nat, d@, a@),
        ensures
            final(world).wf(),
            grows(old(world)@, final(world)@),
            rows_ok(final(world)@, joined@, grid@.len() as nat / 2, grid@[0]@.len() as nat / 2, d@ + 1, a@),
            forall|i: int, j: int|
                #![trigger joined@[i]@[j]]
                0 <= i < grid@.len() / 2 && 0 <= j < grid@[0]@.len() / 2 ==> joins(final(world)@, grid@, joined@[i]@[j], i, j),
    {
        let ghost s0 = world@;
        let ghost d = d@;
        let ghost a = a@;
        let m = grid.len() / 2;
        let w = grid[0].len() / 2;
        let mut joined: Vec<Vec<usize>> = Vec::new();
        let mut i: usize = 0;
        while i < m
            invariant
                m == grid@.len() / 2,
                grid@.len() == 2 * m,
                2 * m <= usize::MAX,
                w == grid@[0]@.len() / 2,
                grid@[0]@.len() == 2 * w,
                2 * w <= usize::MAX,
                i <= m,
                world.wf(),
                grows(s0, world@),
                rows_ok(world@, grid@, 2 * m as nat, 2 * w as nat, d, a),
                rows_ok(world@, joined@, i as nat, w as nat, d + 1, a),
                forall|k: int, l: int| #![trigger joined@[k]@[l]] 0 <= k < i && 0 <= l < w ==> joins(world@, grid@, joined@[k]@[l], k, l),
            decreases m - i,
        {
            let mut row: Vec<usize> = Vec::new();
            let mut j: usize = 0;
            while j < w
                invariant
                    m == grid@.len() / 2,
                    grid@.len() == 2 * m,
                    2 * m <= usize::MAX,
                    w == grid@[0]@.len() / 2,
                    grid@[0]@.len() == 2 * w,
                    2 * w <= usize::MAX,
                w == grid@[0]@.len() / 2,
                grid@[0]@.len() == 2 * w,
                2 * w <= usize::MAX,
                    i < m,
                    j <= w,
                    world.wf(),
                    grows(s0, world@),
                    rows_ok(world@, grid@, 2 * m as nat, 2 * w as nat, d, a),
                    rows_ok(world@, joined@, i as nat, w as nat, d + 1, a),
                    row@.len() == j,
                    row_ok(world@, row@, d + 1, a),
                    forall|k: int, l: int| #![trigger joined@[k]@[l]] 0 <= k < i && 0 <= l < w ==> joins(world@, grid@, joined@[k]@[l], k, l),
                    forall|l: int| #![trigger row@[l]] 0 <= l < j ==> joins(world@, grid@, row@[l], i as int, l),
                decreases w - j,
            {
                let ghost w0 = world@;
                let top = &grid[2 * i];
                let bottom = &grid[2 * i + 1];
                assert(handle_ok(w0, top@[2 * j as int], d, a));
                assert(handle_ok(w0, top@[2 * j + 1], d, a));
                assert(handle_ok(w0, bottom@[2 * j as int], d, a));
                assert(handle_ok(w0, bottom@[2 * j + 1], d, a));
                let h = Cell::new(top[2 * j], top[2 * j + 1], bottom[2 * j], bottom[2 * j + 1], world);
                proof {
                    lemma_node(world@, h as int);
                    lemma_row_grows(w0, world@, row@, d + 1, a);
                    lemma_rows_grow(w0, world@, joined@, i as nat, w as nat, d + 1, a);
                    lemma_rows_grow(w0, world@, grid@, 2 * m as nat, 2 * w as nat, d, a);
                    assert forall|k: int, l: int| #![trigger joined@[k]@[l]] 0 <= k < i && 0 <= l < w implies joins(world@, grid@, joined@[k]@[l], k, l) by {
                        assert(joins(w0, grid@, joined@[k]@[l], k, l));
                    }
                    assert forall|l: int| #![trigger row@[l]] 0 <= l < j implies joins(world@, grid@, row@[l], i as int, l) by {
                        assert(joins(w0, grid@, row@[l], i as int, l));
                    }
                }
                row.push(h);
                j = j + 1;
            }
            joined.push(row);
            i = i + 1;
        }
        joined
    }

    /// The pattern of `cell` after `step` generations, trimmed.
    ///
    /// The node is padded with dead space until no live cell can reach its
    /// border within one pass, advanced by the largest power of two not above
    /// `step`, and advanced again by what remains. The result holds exactly
    /// the live cells of `step` generations on, up to where it sits.
    #[verifier::rlimit(100)]
    #[verifier::spinoff_prover]
    pub fn jump(cell: usize, step: usize, world: &mut World) -> (r: usize)
        requires
            old(world).wf(),
            cell < old(world)@.len(),
        ensures
            final(world).wf(),
            grows(old(world)@, final(world)@),
            r < final(world)@.len(),
            is_trimmed(final(world)@, r as int),
            step == 0 ==> r as int == trim_of(old(world)@, cell as int),
            step == 0 ==> final(world)@ == old(world)@,
            dead(old(world)@, cell as int) ==> r == DEAD_BASE,
            exists|dr: int, dc: int|
                plane(final(world)@, r as int) == shifted(
                    generations(plane(old(world)@, cell as int), step as nat),
                    dr,
                    dc,
                ),
        decreases step,
    {
        let ghost s0 = world@;
        let ghost plane0 = plane(s0, cell as int);
        let mut c = Cell::trim(cell, world);
        let ghost t0 = c;
        let ghost off = crate::theorems::trim_offset(s0, cell as int);
        let ghost base = plane(s0, t0 as int);
        proof {
            lemma_trim(world@, cell as int);
            crate::world::lemma_grows(world@, world@);
            crate::theorems::lemma_trim_keeps_cells(s0, cell as int);
            assert forall|x: int, y: int| #[trigger] base(x, y) == shifted(plane0, off.0, off.1)(x, y) by {
                assert(alive(s0, cell as int, x + off.0, y + off.1) == alive(s0, t0 as int, x, y));
            }
            assert(base =~= shifted(plane0, off.0, off.1));
        }
        if step == 0 {
            proof {
                assert(generations(plane0, 0) == plane0);
                assert(plane(world@, c as int) == shifted(generations(plane0, 0), off.0, off.1));
            }
            return c;
        }
        let ghost all_dead = dead(s0, cell as int);
        proof {
            lemma_node(world@, c as int);
            lemma_node(world@, DEAD_BASE as int);
        }
        if c < LEAVES {
            c = Cell::new(c, DEAD_BASE, DEAD_BASE, DEAD_BASE, world);
            proof {
                let s1 = world@;
                lemma_node(s1, c as int);
                lemma_node(s1, t0 as int);
                crate::world::lemma_alive_grows(s0, s1, t0 as int);
                crate::theorems::lemma_dead_iff_empty(s1, DEAD_BASE as int);
                assert(two_pow(1) == 2) by {
                    assert(two_pow(0) == 1);
                }
                let cm = s1[c as int]->Macro_0;
                assert(cm.quad() == (t0, DEAD_BASE, DEAD_BASE, DEAD_BASE));
                assert(cm.size == 0);
                assert forall|x: int, y: int| #[trigger] alive(s1, c as int, x, y) == base(x, y) by {
                    assert(base(x, y) == alive(s0, t0 as int, x, y));
                    assert(alive(s1, t0 as int, x, y) == alive(s0, t0 as int, x, y));
                    if alive(s0, t0 as int, x, y) {
                        crate::theorems::lemma_alive_in_square(s0, t0 as int, x, y);
                    }
                    if x < 2 {
                        if y >= 2 {
                            assert(!alive(s1, DEAD_BASE as int, x, y - 2));
                        }
                    } else {
                        if y < 2 {
                            assert(!alive(s1, DEAD_BASE as int, x - 2, y));
                        } else {
                            assert(!alive(s1, DEAD_BASE as int, x - 2, y - 2));
                        }
                    }
                }
            }
        }
        let ghost w0 = world@;
        proof {
            lemma_node(w0, c as int);
            assert forall|x: int, y: int| #[trigger] alive(w0, c as int, x, y) == base(x, y) by {
                if c == t0 {
                    assert(w0 == s0);
                }
            }
        }
        // the largest power of two not above step
        let mut p: usize = 1;
        let mut e: usize = 0;
        assert(two_pow(0) == 1);
        while p <= step / 2
            invariant
                1 <= p <= step,
                e < p,
                p == two_pow(e as nat),
            decreases step - p,
        {
            p = p * 2;
            e = e + 1;
        }
        let rem = step - p;
        // pad until a pass of 2^e generations stays inside the node
        let m0 = world.get(c).unwrap_macro();
        proof {
            assert forall|x: int, y: int| #[trigger] crate::world::alive_m(w0, m0, x, y) == base(x, y) by {
                assert(alive(w0, c as int, x, y) == crate::world::alive_m(w0, m0, x, y));
            }
        }
        let mut padded = Cell::pad_cell(m0, world);
        let ghost mut shift: int = two_pow((m0.size + 1) as nat) as int;
        proof {
            crate::evolution::lemma_alive_m_grows(w0, world@, m0);
            assert forall|x: int, y: int| #[trigger] crate::world::alive_m(world@, padded, x, y) == base(x - shift, y - shift) by {
                assert(crate::world::alive_m(world@, m0, x - shift, y - shift) == crate::world::alive_m(w0, m0, x - shift, y - shift));
            }
            lemma_padded_ring(world@, m0, padded);
        }
        while padded.size <= e
            invariant
                world.wf(),
                grows(s0, world@),
                wf_macro(world@, padded),
                all_dead ==> padded.is_dead,
                forall|x: int, y: int| #[trigger] crate::world::alive_m(world@, padded, x, y) == base(x - shift, y - shift),
                crate::life::dead_outside(
                    |x: int, y: int| crate::world::alive_m(world@, padded, x, y),
                    two_pow(padded.size as nat) as int,
                    3 * two_pow(padded.size as nat) as int,
                ),
            decreases if padded.size <= e { e - padded.size + 1 } else { 0 },
        {
            let ghost wa = world@;
            let ghost before = padded;
            padded = Cell::pad_cell(padded, world);
            proof {
                let q = two_pow((before.size + 1) as nat) as int;
                crate::evolution::lemma_alive_m_grows(wa, world@, before);
                assert forall|x: int, y: int| #[trigger] crate::world::alive_m(world@, padded, x, y) == base(x - (shift + q), y - (shift + q)) by {
                    assert(crate::world::alive_m(world@, before, x - q, y - q) == crate::world::alive_m(wa, before, x - q, y - q));
                    assert(crate::world::alive_m(wa, before, x - q, y - q) == base(x - q - shift, y - q - shift));
                }
                shift = shift + q;
                lemma_padded_ring(world@, before, padded);
            }
        }
        let ghost wp = world@;
        let ghost big_k = padded.size as nat;
        let ghost q = two_pow(big_k) as int;
        let ghost t = p as int;
        let ghost pl = |x: int, y: int| crate::world::alive_m(wp, padded, x, y);
        let ghost later = generations(pl, t as nat);
        proof {
            assert forall|x: int, y: int| #[trigger] pl(x, y) == shifted(plane0, off.0 - shift, off.1 - shift)(x, y) by {
                assert(pl(x, y) == base(x - shift, y - shift));
                assert(base(x - shift, y - shift) == plane0(x - shift + off.0, y - shift + off.1));
            }
            assert(pl =~= shifted(plane0, off.0 - shift, off.1 - shift));
            crate::life::lemma_light_cone(pl, q, 3 * q, t as nat);
            crate::theorems::lemma_two_pow_le((e + 1) as nat, big_k);
            assert(two_pow((e + 1) as nat) == 2 * t);
        }
        let grid = Cell::macro_grid(padded, e, world, Ghost(pl), Ghost(0int), Ghost(0int));
        let ghost k = (padded.size - e) as nat;
        proof {
            lemma_two_pow_pos(k);
            crate::world::lemma_two_pow_mul(k, (e + 2) as nat);
            assert(two_pow((big_k + 2) as nat) == 4 * q) by {
                assert(two_pow((big_k + 1) as nat) == 2 * q);
            }
            assert(two_pow((e + 2) as nat) == 4 * t) by {
                assert(two_pow((e + 1) as nat) == 2 * t);
            }
            assert(grid@.len() * two_pow((e + 2) as nat) == 4 * q);
            assert forall|x: int, y: int| x >= 0 + grid@.len() * two_pow((grid@[0]@[0].size + 2) as nat) - two_pow(grid@[0]@[0].size as nat)
                || y >= 0 + grid@.len() * two_pow((grid@[0]@[0].size + 2) as nat) - two_pow(grid@[0]@[0].size as nat)
                implies !#[trigger] generations(pl, two_pow(grid@[0]@[0].size as nat))(x, y) by {
                assert(grid@[0]@[0].size == e);
                assert(!later(x, y));
            }
        }
        assert(grid@[0]@[0].size == e);
        let mut stepped = Cell::convolve_grid(grid, world, Ghost(all_dead), Ghost(pl), Ghost(0int), Ghost(0int));
        let ghost mut n = k + 1;
        let ghost mut d = e as nat;
        proof {
            assert(two_pow(n) == 2 * two_pow(k));
            assert(two_pow(d + 1) == 2 * t);
            crate::world::lemma_two_pow_mul(d + 1, n);
            crate::world::lemma_two_pow_mul(k, (e + 2) as nat);
            assert(d + 1 + n == k + e + 2);
        }
        while stepped.len() > 1
            invariant
                world.wf(),
                grows(s0, world@),
                grows(wp, world@),
                rows_ok(world@, stepped@, two_pow(n), two_pow(n), d, all_dead),
                grid_holds(later, world@, stepped@, two_pow(n), two_pow(n), two_pow(d + 1) as int, t, t),
                two_pow(d + 1) * two_pow(n) == 4 * q,
            decreases stepped@.len(),
        {
            assert(n > 0);
            assert(two_pow(n) == 2 * two_pow((n - 1) as nat));
            let ghost sb = world@;
            let ghost old_stepped = stepped@;
            stepped = Cell::build_up(stepped, world, Ghost(d), Ghost(all_dead));
            proof {
                crate::evolution::lemma_joined_holds(later, sb, world@, old_stepped, stepped@, two_pow((n - 1) as nat), d, all_dead, t, t);
                assert(two_pow(d + 2) == 2 * two_pow(d + 1));
                assert(two_pow(d + 2) * two_pow((n - 1) as nat) == 4 * q) by (nonlinear_arith)
                    requires
                        two_pow(d + 2) == 2 * two_pow(d + 1),
                        two_pow(n) == 2 * two_pow((n - 1) as nat),
                        two_pow(d + 1) * two_pow(n) == 4 * q;
                n = (n - 1) as nat;
                d = d + 1;
            }
        }
        assert(stepped@.len() == 1) by {
            if n > 0 {
                lemma_two_pow_pos((n - 1) as nat);
            }
        }
        assert(handle_ok(world@, stepped@[0]@[0], d, all_dead));
        let next = stepped[0][0];
        let ghost wn = world@;
        proof {
            assert(two_pow(n) == 1);
            assert(two_pow(d + 1) == 4 * q) by (nonlinear_arith)
                requires two_pow(d + 1) * two_pow(n) == 4 * q, two_pow(n) == 1;
            assert(crate::evolution::holds(later, wn, next, t + 0 * two_pow(d + 1), t + 0 * two_pow(d + 1)));
            assert forall|x: int, y: int| #[trigger] plane(wn, next as int)(x, y) == shifted(later, t, t)(x, y) by {
                if alive(wn, next as int, x, y) {
                    crate::theorems::lemma_alive_in_square(wn, next as int, x, y);
                }
                if 0 <= x < 4 * q && 0 <= y < 4 * q {
                    assert(later(t + 0 * two_pow(d + 1) + x, t + 0 * two_pow(d + 1) + y) == alive(wn, next as int, x, y));
                } else {
                    assert(!later(t + x, t + y));
                }
            }
            assert(plane(wn, next as int) =~= shifted(later, t, t));
            crate::life::lemma_generations_shift(plane0, off.0 - shift, off.1 - shift, t as nat);
            assert(plane(wn, next as int) =~= shifted(generations(plane0, t as nat), off.0 - shift + t, off.1 - shift + t));
        }
        let ghost delta_r = off.0 - shift + t;
        let ghost delta_c = off.1 - shift + t;
        if rem == 0 {
            let r = Cell::trim(next, world);
            proof {
                lemma_trim(world@, next as int);
                crate::theorems::lemma_trim_keeps_cells(wn, next as int);
                let o2 = crate::theorems::trim_offset(wn, next as int);
                assert(step == p);
                let gt = generations(plane0, t as nat);
                assert forall|x: int, y: int| #[trigger] plane(wn, r as int)(x, y) == shifted(generations(plane0, step as nat), delta_r + o2.0, delta_c + o2.1)(x, y) by {
                    assert(alive(wn, next as int, x + o2.0, y + o2.1) == alive(wn, r as int, x, y));
                    assert(plane(wn, next as int)(x + o2.0, y + o2.1) == shifted(gt, delta_r, delta_c)(x + o2.0, y + o2.1));
                    assert(shifted(gt, delta_r, delta_c)(x + o2.0, y + o2.1) == gt(x + o2.0 + delta_r, y + o2.1 + delta_c));
                }
                assert(plane(wn, r as int) =~= shifted(generations(plane0, step as nat), delta_r + o2.0, delta_c + o2.1));
                crate::world::lemma_grows(s0, wn);
            }
            r
        } else {
            let r = Cell::jump(next, rem, world);
            proof {
                let (dr2, dc2) = choose|dr: int, dc: int| plane(world@, r as int) == shifted(generations(plane(wn, next as int), rem as nat), dr, dc);
                crate::life::lemma_generations_shift(generations(plane0, t as nat), delta_r, delta_c, rem as nat);
                crate::life::lemma_generations_add(plane0, t as nat, rem as nat);
                assert(plane(world@, r as int) =~= shifted(generations(plane0, step as nat), delta_r + dr2, delta_c + dc2));
                if all_dead {
                    crate::theorems::lemma_dead_iff_empty(s0, cell as int);
                }
            }
            r
        }
    }
}

} // verus!
