use vstd::prelude::*;
use std::collections::HashMap;
use crate::cell::Cell;
use crate::macro_::Macro;
use crate::life::{generations, step_tile};
use crate::cell::{handle_ok, joins, row_ok, rows_ok};
use vstd::string::StringExecFns;

verus! {

broadcast use vstd::std_specs::hash::group_hash_axioms;

/// The number of leaves: one per 2x2 tile, each at the handle that its bits
/// spell in binary (top-left is the highest bit).
pub const LEAVES: usize = 16;

pub open spec fn two_pow(k: nat) -> nat
    decreases k,
{
    if k == 0 { 1 } else { 2 * two_pow((k - 1) as nat) }
}

pub proof fn lemma_two_pow_pos(k: nat)
    ensures
        two_pow(k) >= 1,
    decreases k,
{
    if k > 0 {
        lemma_two_pow_pos((k - 1) as nat);
    }
}

pub proof fn lemma_two_pow_mul(a: nat, b: nat)
    ensures
        two_pow(a) * two_pow(b) == two_pow(a + b),
    decreases a,
{
    if a > 0 {
        lemma_two_pow_mul((a - 1) as nat, b);
        assert(two_pow(a) * two_pow(b) == 2 * (two_pow((a - 1) as nat) * two_pow(b))) by (nonlinear_arith)
            requires two_pow(a) == 2 * two_pow((a - 1) as nat);
        assert(two_pow(a + b) == 2 * two_pow((a - 1 + b) as nat));
    } else {
        assert(two_pow(0) == 1);
    }
}

/// The side of a node: `2^(level + 1)`.
pub open spec fn side(s: Seq<Cell>, h: int) -> nat {
    two_pow(depth(s, h) + 1)
}

/// Whether the cell in row `r`, column `c` of node `h` is alive; cells
/// outside the node are dead.
pub open spec fn alive(s: Seq<Cell>, h: int, r: int, c: int) -> bool
    decreases h,
{
    if 0 <= h < s.len() {
        match s[h] {
            Cell::Base(t) => 0 <= r < 2 && 0 <= c < 2 && t@[r * 2 + c],
            Cell::Macro(m) => {
                let half = two_pow((m.size + 1) as nat) as int;
                if m.tl < h && m.tr < h && m.bl < h && m.br < h {
                    if r < half {
                        if c < half {
                            alive(s, m.tl as int, r, c)
                        } else {
                            alive(s, m.tr as int, r, c - half)
                        }
                    } else {
                        if c < half {
                            alive(s, m.bl as int, r - half, c)
                        } else {
                            alive(s, m.br as int, r - half, c - half)
                        }
                    }
                } else {
                    false
                }
            },
        }
    } else {
        false
    }
}

/// Node `h` alone on an otherwise dead plane, its top-left cell at the
/// origin.
pub open spec fn plane(s: Seq<Cell>, h: int) -> spec_fn(int, int) -> bool {
    |r: int, c: int| alive(s, h, r, c)
}

/// The cells of node `h` as rows of booleans.
pub open spec fn grid_of(s: Seq<Cell>, h: int) -> Seq<Seq<bool>> {
    Seq::new(side(s, h), |r: int| Seq::new(side(s, h), |c: int| alive(s, h, r, c)))
}

/// A row drawn with `#` for a live cell and `_` for a dead one.
pub open spec fn render_row(row: Seq<bool>) -> Seq<char> {
    row.map_values(|b: bool| if b { '#' } else { '_' })
}

/// Rows drawn one under the other, each ended by a newline.
pub open spec fn render(g: Seq<Seq<bool>>) -> Seq<char>
    decreases g.len(),
{
    if g.len() == 0 {
        Seq::empty()
    } else {
        render(g.drop_last()) + render_row(g.last()) + seq!['\n']
    }
}

/// The tile kept at handle `i < 16`.
pub open spec fn bits(i: int) -> Seq<bool> {
    seq![i / 8 % 2 == 1, i / 4 % 2 == 1, i / 2 % 2 == 1, i % 2 == 1]
}

/// Level of a node: 0 for a leaf, `size + 1` for a branch; its side is
/// `2^(level + 1)`.
pub open spec fn depth(s: Seq<Cell>, h: int) -> nat {
    match s[h] {
        Cell::Base(_) => 0,
        Cell::Macro(m) => (m.size + 1) as nat,
    }
}

pub open spec fn dead(s: Seq<Cell>, h: int) -> bool {
    s[h].records_dead()
}

pub open spec fn tile(s: Seq<Cell>, h: int) -> [bool; 4] {
    s[h]->Base_0
}

/// Cell `(r, c)` of the square made of the four children of `m`.
pub open spec fn alive_m(s: Seq<Cell>, m: Macro, r: int, c: int) -> bool {
    let half = two_pow((m.size + 1) as nat) as int;
    if r < half {
        if c < half {
            alive(s, m.tl as int, r, c)
        } else {
            alive(s, m.tr as int, r, c - half)
        }
    } else {
        if c < half {
            alive(s, m.bl as int, r - half, c)
        } else {
            alive(s, m.br as int, r - half, c - half)
        }
    }
}

/// The plane `f` holds the square of `m` with its top-left at `(or, oc)`.
pub open spec fn agrees(f: spec_fn(int, int) -> bool, s: Seq<Cell>, m: Macro, or: int, oc: int) -> bool {
    forall|r: int, c: int|
        0 <= r < 2 * two_pow((m.size + 1) as nat) && 0 <= c < 2 * two_pow((m.size + 1) as nat)
            ==> #[trigger] f(or + r, oc + c) == alive_m(s, m, r, c)
}

/// The result of `m` is the centre of its square `2^size` generations on,
/// whatever lies around the square.
#[verifier::opaque]
pub open spec fn evolves(s: Seq<Cell>, m: Macro) -> bool {
    forall|f: spec_fn(int, int) -> bool, or: int, oc: int|
        #[trigger] agrees(f, s, m, or, oc) ==> forall|r: int, c: int|
            0 <= r < 2 * two_pow(m.size as nat) && 0 <= c < 2 * two_pow(m.size as nat)
                ==> #[trigger] alive(s, m.result as int, r, c) == generations(f, two_pow(m.size as nat))(
                or + two_pow(m.size as nat) + r,
                oc + two_pow(m.size as nat) + c,
            )
}

/// What a branch must satisfy with respect to the nodes it refers to.
pub open spec fn wf_macro(s: Seq<Cell>, m: Macro) -> bool {
    &&& m.tl < s.len() && m.tr < s.len() && m.bl < s.len() && m.br < s.len()
    &&& m.result < s.len()
    &&& depth(s, m.tl as int) == m.size && depth(s, m.tr as int) == m.size
    &&& depth(s, m.bl as int) == m.size && depth(s, m.br as int) == m.size
    &&& depth(s, m.result as int) == m.size
    &&& m.is_dead == (dead(s, m.tl as int) && dead(s, m.tr as int) && dead(s, m.bl as int)
        && dead(s, m.br as int))
    &&& m.is_dead ==> dead(s, m.result as int)
    &&& m.size == 0 ==> tile(s, m.result as int)@ == step_tile(
        tile(s, m.tl as int),
        tile(s, m.tr as int),
        tile(s, m.bl as int),
        tile(s, m.br as int),
    )
    &&& evolves(s, m)
}

pub open spec fn leaf_ok(s: Seq<Cell>, i: int) -> bool {
    s[i] is Base && tile(s, i)@ == bits(i)
}

pub open spec fn node_ok(s: Seq<Cell>, i: int) -> bool {
    &&& s[i] is Macro
    &&& s[i]->Macro_0.tl < i && s[i]->Macro_0.tr < i && s[i]->Macro_0.bl < i
    &&& s[i]->Macro_0.br < i && s[i]->Macro_0.result < i
    &&& s[i]->Macro_0.size + LEAVES <= i
    &&& wf_macro(s, s[i]->Macro_0)
}

pub open spec fn quad(s: Seq<Cell>, i: int) -> (usize, usize, usize, usize) {
    s[i]->Macro_0.quad()
}

/// The arena is well formed: leaves first, each branch after what it refers
/// to, and no two branches with the same children.
pub open spec fn nodes_wf(s: Seq<Cell>) -> bool {
    &&& LEAVES <= s.len()
    &&& forall|i: int| 0 <= i < LEAVES ==> #[trigger] leaf_ok(s, i)
    &&& forall|i: int| LEAVES <= i < s.len() ==> #[trigger] node_ok(s, i)
    &&& forall|i: int, j: int|
        LEAVES <= i < s.len() && LEAVES <= j < s.len() && i != j ==> #[trigger] quad(s, i)
            != #[trigger] quad(s, j)
}

/// What the arena's well-formedness says of one handle.
pub proof fn lemma_node(s: Seq<Cell>, h: int)
    requires
        nodes_wf(s),
        0 <= h < s.len(),
    ensures
        s[h] is Base <==> h < LEAVES,
        h < LEAVES ==> leaf_ok(s, h),
        h >= LEAVES ==> node_ok(s, h),
        h >= LEAVES ==> depth(s, h) + 15 <= h,
{
    if h < LEAVES {
        assert(leaf_ok(s, h));
    } else {
        assert(node_ok(s, h));
    }
}

/// `t` holds every node of `s` at the same handle.
pub open spec fn extends(s: Seq<Cell>, t: Seq<Cell>) -> bool {
    &&& s.len() <= t.len()
    &&& forall|i: int| 0 <= i < s.len() ==> #[trigger] t[i] == s[i]
}

/// `t` extends `s`, and every branch that is well formed in `s` stays so in `t`.
pub open spec fn grows(s: Seq<Cell>, t: Seq<Cell>) -> bool {
    &&& extends(s, t)
    &&& forall|m: Macro| #[trigger] wf_macro(s, m) ==> wf_macro(t, m)
}

pub proof fn lemma_grows(s: Seq<Cell>, t: Seq<Cell>)
    requires
        nodes_wf(s),
        extends(s, t),
    ensures
        grows(s, t),
{
    assert forall|m: Macro| #[trigger] wf_macro(s, m) implies wf_macro(t, m) by {
        lemma_alive_grows(s, t, m.tl as int);
        lemma_alive_grows(s, t, m.tr as int);
        lemma_alive_grows(s, t, m.bl as int);
        lemma_alive_grows(s, t, m.br as int);
        lemma_alive_grows(s, t, m.result as int);
        assert forall|r: int, c: int| #[trigger] alive_m(t, m, r, c) == alive_m(s, m, r, c) by {}
        reveal(evolves);
        assert forall|f: spec_fn(int, int) -> bool, or: int, oc: int|
            #[trigger] agrees(f, t, m, or, oc) implies forall|r: int, c: int|
                0 <= r < 2 * two_pow(m.size as nat) && 0 <= c < 2 * two_pow(m.size as nat)
                    ==> #[trigger] alive(t, m.result as int, r, c) == generations(f, two_pow(m.size as nat))(
                    or + two_pow(m.size as nat) + r,
                    oc + two_pow(m.size as nat) + c,
                ) by {
            assert(agrees(f, s, m, or, oc));
        }
        assert(t[m.tl as int] == s[m.tl as int]);
        assert(t[m.tr as int] == s[m.tr as int]);
        assert(t[m.bl as int] == s[m.bl as int]);
        assert(t[m.br as int] == s[m.br as int]);
        assert(t[m.result as int] == s[m.result as int]);
    }
}

pub open spec fn pack(a: int, b: int) -> int {
    a * 0x1_0000_0000_0000_0000 + b
}

proof fn lemma_pack_injective(a: int, b: int, c: int, d: int)
    requires
        0 <= b < 0x1_0000_0000_0000_0000,
        0 <= d < 0x1_0000_0000_0000_0000,
        pack(a, b) == pack(c, d),
    ensures
        a == c,
        b == d,
{
    assert(a == c) by (nonlinear_arith)
        requires
            0 <= b < 0x1_0000_0000_0000_0000,
            0 <= d < 0x1_0000_0000_0000_0000,
            a * 0x1_0000_0000_0000_0000 + b == c * 0x1_0000_0000_0000_0000 + d,
    ;
}

fn pack_exec(a: usize, b: usize) -> (k: u128)
    ensures
        k as int == pack(a as int, b as int),
{
    assert(a as int * 0x1_0000_0000_0000_0000 + b as int <= u128::MAX) by (nonlinear_arith)
        requires
            a as int <= 0xffff_ffff_ffff_ffff,
            b as int <= 0xffff_ffff_ffff_ffff,
    ;
    (a as u128) * 0x1_0000_0000_0000_0000u128 + (b as u128)
}

fn concat_bools(a: &Vec<bool>, b: &Vec<bool>) -> (r: Vec<bool>)
    ensures
        r@ == a@ + b@,
{
    let mut r: Vec<bool> = Vec::new();
    let mut i: usize = 0;
    while i < a.len()
        invariant
            i <= a@.len(),
            r@ == a@.subrange(0, i as int),
        decreases a@.len() - i,
    {
        r.push(a[i]);
        i = i + 1;
        assert(r@ =~= a@.subrange(0, i as int));
    }
    let mut j: usize = 0;
    while j < b.len()
        invariant
            j <= b@.len(),
            r@ == a@ + b@.subrange(0, j as int),
        decreases b@.len() - j,
    {
        r.push(b[j]);
        j = j + 1;
        assert(r@ =~= a@ + b@.subrange(0, j as int));
    }
    assert(b@.subrange(0, b@.len() as int) =~= b@);
    r
}

/// The cell in row `r`, column `c` of a jagged grid; missing cells are dead.
pub open spec fn input_at(g: Seq<Vec<bool>>, r: int, c: int) -> bool {
    0 <= r < g.len() && 0 <= c < g[r]@.len() && g[r]@[c]
}

/// A square of side `n` holds every row of `g` and every cell of each row.
pub open spec fn fits(g: Seq<Vec<bool>>, n: int) -> bool {
    &&& g.len() <= n
    &&& forall|i: int| 0 <= i < g.len() ==> #[trigger] g[i]@.len() <= n
}

/// `tiles` is an `m` by `m` grid of nodes of level `d`, the one at row `i`,
/// column `j` holding the square of `g` at row `i * side`, column `j * side`.
pub open spec fn covers(s: Seq<Cell>, tiles: Seq<Vec<usize>>, m: nat, d: nat, g: Seq<Vec<bool>>) -> bool {
    &&& tiles.len() == m
    &&& forall|i: int| #![trigger tiles[i]] 0 <= i < m ==> tiles[i]@.len() == m
    &&& forall|i: int, j: int|
        #![trigger tiles[i]@[j]]
        0 <= i < m && 0 <= j < m ==> tiles[i]@[j] < s.len() && depth(s, tiles[i]@[j] as int) == d
    &&& forall|i: int, j: int, r: int, c: int|
        #![trigger alive(s, tiles[i]@[j] as int, r, c)]
        0 <= i < m && 0 <= j < m && 0 <= r < two_pow(d + 1) && 0 <= c < two_pow(d + 1)
            ==> alive(s, tiles[i]@[j] as int, r, c) == input_at(
            g,
            i * two_pow(d + 1) + r,
            j * two_pow(d + 1) + c,
        )
}

/// A node reads the same in a world that extends its own.
pub proof fn lemma_alive_grows(s: Seq<Cell>, t: Seq<Cell>, h: int)
    requires
        nodes_wf(s),
        extends(s, t),
        0 <= h < s.len(),
    ensures
        forall|r: int, c: int| #[trigger] alive(t, h, r, c) == alive(s, h, r, c),
    decreases h,
{
    lemma_node(s, h);
    assert(t[h] == s[h]);
    if s[h] is Macro {
        let m = s[h]->Macro_0;
        lemma_alive_grows(s, t, m.tl as int);
        lemma_alive_grows(s, t, m.tr as int);
        lemma_alive_grows(s, t, m.bl as int);
        lemma_alive_grows(s, t, m.br as int);
    }
    assert forall|r: int, c: int| #[trigger] alive(t, h, r, c) == alive(s, h, r, c) by {
        if s[h] is Macro {
            let m = s[h]->Macro_0;
            let half = two_pow((m.size + 1) as nat) as int;
            assert(alive(t, m.tl as int, r, c) == alive(s, m.tl as int, r, c));
            assert(alive(t, m.tr as int, r, c - half) == alive(s, m.tr as int, r, c - half));
            assert(alive(t, m.bl as int, r - half, c) == alive(s, m.bl as int, r - half, c));
            assert(alive(t, m.br as int, r - half, c - half) == alive(s, m.br as int, r - half, c - half));
        }
    }
}

fn read(grid: &Vec<Vec<bool>>, r: usize, c: usize) -> (b: bool)
    ensures
        b == input_at(grid@, r as int, c as int),
{
    if r < grid.len() && c < grid[r].len() {
        grid[r][c]
    } else {
        false
    }
}

/// The four children of a prospective branch.
#[derive(Debug, Clone, Copy)]
pub struct Quarters {
    pub tl: usize,
    pub tr: usize,
    pub bl: usize,
    pub br: usize,
}

impl Quarters {
    pub open spec fn quad(&self) -> (usize, usize, usize, usize) {
        (self.tl, self.tr, self.bl, self.br)
    }

    pub fn new(tl: usize, tr: usize, bl: usize, br: usize) -> (q: Quarters)
        ensures
            q.quad() == (tl, tr, bl, br),
    {
        Quarters { tl, tr, bl, br }
    }
}

/// The universe: the arena of nodes and the interning tables.
///
/// `pairs` numbers each ordered pair of handles that has been a row of some
/// branch; `table` maps the packed numbers of a branch's two rows to the
/// branch.
pub struct World {
    nodes: Vec<Cell>,
    pairs: Vec<(usize, usize)>,
    pair_ids: HashMap<u128, usize>,
    table: HashMap<u128, usize>,
}

impl View for World {
    type V = Seq<Cell>;

    closed spec fn view(&self) -> Seq<Cell> {
        self.nodes@
    }
}

impl World {
    /// The number given to the pair `(a, b)`, if it has one.
    closed spec fn pair_of(&self, a: usize, b: usize) -> Option<usize> {
        let k = pack(a as int, b as int) as u128;
        if self.pair_ids@.contains_key(k) {
            Some(self.pair_ids@[k])
        } else {
            None
        }
    }

    /// The table key of a branch with children `q`, if both rows are numbered.
    closed spec fn key_of(&self, q: (usize, usize, usize, usize)) -> Option<u128> {
        match (self.pair_of(q.0, q.1), self.pair_of(q.2, q.3)) {
            (Some(t), Some(b)) => Some(pack(t as int, b as int) as u128),
            _ => None,
        }
    }

    pub closed spec fn tables_ok(&self) -> bool {
        &&& forall|k: u128| #[trigger]
            self.pair_ids@.contains_key(k) ==> self.pair_ids@[k] < self.pairs@.len() && k as int
                == pack(
                self.pairs@[self.pair_ids@[k] as int].0 as int,
                self.pairs@[self.pair_ids@[k] as int].1 as int,
            )
        &&& forall|k: u128| #[trigger]
            self.table@.contains_key(k) ==> LEAVES <= self.table@[k] < self.nodes@.len()
                && self.key_of(quad(self.nodes@, self.table@[k] as int)) == Some(k)
        &&& forall|i: int|
            LEAVES <= i < self.nodes@.len() ==> #[trigger] self.key_of(quad(self.nodes@, i))
                is Some && self.table@.contains_key(self.key_of(quad(self.nodes@, i))->0)
                && self.table@[self.key_of(quad(self.nodes@, i))->0] == i
    }

    /// The world is well formed.
    pub open spec fn wf(&self) -> bool {
        &&& nodes_wf(self@)
        &&& self.tables_ok()
    }

    /// A world that holds the sixteen leaves and no branch.
    pub fn blank() -> (w: World)
        ensures
            w.wf(),
            w@.len() == LEAVES,
    {
        let mut nodes: Vec<Cell> = Vec::new();
        let mut i: usize = 0;
        while i < LEAVES
            invariant
                i <= LEAVES,
                nodes@.len() == i,
                forall|j: int| 0 <= j < i ==> #[trigger] leaf_ok(nodes@, j),
            decreases LEAVES - i,
        {
            let t = [i / 8 % 2 == 1, i / 4 % 2 == 1, i / 2 % 2 == 1, i % 2 == 1];
            assert(t@ =~= bits(i as int));
            let ghost before = nodes@;
            nodes.push(Cell::Base(t));
            assert forall|j: int| 0 <= j <= i implies #[trigger] leaf_ok(nodes@, j) by {
                if j < i {
                    assert(leaf_ok(before, j));
                }
            }
            i = i + 1;
        }
        World { nodes, pairs: Vec::new(), pair_ids: HashMap::new(), table: HashMap::new() }
    }

    /// The handle of the leaf holding `t`.
    pub fn leaf(t: [bool; 4]) -> (h: usize)
        ensures
            h < LEAVES,
            bits(h as int) == t@,
    {
        let mut h: usize = 0;
        if t[0] { h = h + 8; }
        if t[1] { h = h + 4; }
        if t[2] { h = h + 2; }
        if t[3] { h = h + 1; }
        assert(bits(h as int) =~= t@);
        h
    }

    /// The node at handle `h`.
    pub fn get(&self, h: usize) -> (c: Cell)
        requires
            h < self@.len(),
        ensures
            c == self@[h as int],
    {
        self.nodes[h]
    }

    /// The number of nodes in the world.
    pub fn len(&self) -> (n: usize)
        ensures
            n == self@.len(),
    {
        self.nodes.len()
    }

    fn find_pair(&self, a: usize, b: usize) -> (r: Option<usize>)
        ensures
            r == self.pair_of(a, b),
    {
        let k = pack_exec(a, b);
        match self.pair_ids.get(&k) {
            Some(p) => Some(*p),
            None => None,
        }
    }

    fn number_pair(&mut self, a: usize, b: usize) -> (p: usize)
        requires
            old(self).wf(),
        ensures
            final(self).wf(),
            final(self)@ == old(self)@,
            final(self).table@ == old(self).table@,
            final(self).pair_of(a, b) == Some(p),
            forall|x: usize, y: usize| #[trigger]
                old(self).pair_of(x, y) is Some ==> final(self).pair_of(x, y) == old(self).pair_of(
                    x,
                    y,
                ),
    {
        let k = pack_exec(a, b);
        match self.pair_ids.get(&k) {
            Some(p) => *p,
            None => {
                let p = self.pairs.len();
                self.pairs.push((a, b));
                self.pair_ids.insert(k, p);
                proof {
                    assert forall|x: usize, y: usize| #[trigger]
                        old(self).pair_of(x, y) is Some implies self.pair_of(x, y) == old(
                            self,
                        ).pair_of(x, y) by {
                        assert(pack(x as int, y as int) as u128 != k);
                    }
                    assert forall|q: (usize, usize, usize, usize)| #[trigger]
                        old(self).key_of(q) is Some implies self.key_of(q) == old(self).key_of(
                            q,
                        ) by {
                        assert(old(self).pair_of(q.0, q.1) is Some);
                        assert(old(self).pair_of(q.2, q.3) is Some);
                    }
                    assert forall|kk: u128| #[trigger]
                        self.pair_ids@.contains_key(kk) implies self.pair_ids@[kk]
                        < self.pairs@.len() && kk as int == pack(
                        self.pairs@[self.pair_ids@[kk] as int].0 as int,
                        self.pairs@[self.pair_ids@[kk] as int].1 as int,
                    ) by {
                        if kk != k {
                            assert(old(self).pair_ids@.contains_key(kk));
                        }
                    }
                    assert forall|i: int|
                        LEAVES <= i < self.nodes@.len() implies #[trigger] self.key_of(
                        quad(self.nodes@, i),
                    ) is Some && self.table@.contains_key(
                        self.key_of(quad(self.nodes@, i))->0,
                    ) && self.table@[self.key_of(quad(self.nodes@, i))->0] == i by {
                        assert(old(self).key_of(quad(self.nodes@, i)) is Some);
                    }
                    assert forall|kk: u128| #[trigger]
                        self.table@.contains_key(kk) implies LEAVES <= self.table@[kk]
                        < self.nodes@.len() && self.key_of(quad(self.nodes@, self.table@[kk] as int))
                        == Some(kk) by {
                        assert(old(self).key_of(quad(self.nodes@, self.table@[kk] as int)) is Some);
                    }
                }
                p
            },
        }
    }

    proof fn lemma_key_injective(&self, q1: (usize, usize, usize, usize), q2: (usize, usize, usize, usize))
        requires
            self.wf(),
            self.key_of(q1) is Some,
            self.key_of(q1) == self.key_of(q2),
        ensures
            q1 == q2,
    {
        let t1 = self.pair_of(q1.0, q1.1)->0;
        let b1 = self.pair_of(q1.2, q1.3)->0;
        let t2 = self.pair_of(q2.0, q2.1)->0;
        let b2 = self.pair_of(q2.2, q2.3)->0;
        lemma_pack_injective(t1 as int, b1 as int, t2 as int, b2 as int);
        let k1 = pack(q1.0 as int, q1.1 as int) as u128;
        let k2 = pack(q2.0 as int, q2.1 as int) as u128;
        let k3 = pack(q1.2 as int, q1.3 as int) as u128;
        let k4 = pack(q2.2 as int, q2.3 as int) as u128;
        assert(self.pair_ids@.contains_key(k1));
        assert(self.pair_ids@.contains_key(k2));
        assert(self.pair_ids@.contains_key(k3));
        assert(self.pair_ids@.contains_key(k4));
        lemma_pack_injective(q1.0 as int, q1.1 as int, q2.0 as int, q2.1 as int);
        lemma_pack_injective(q1.2 as int, q1.3 as int, q2.2 as int, q2.3 as int);
    }

    /// Looks up the branch whose children are `quarters`.
    pub fn try_build(&self, quarters: &Quarters) -> (r: Option<usize>)
        requires
            self.wf(),
        ensures
            match r {
                Some(h) => LEAVES <= h < self@.len() && quad(self@, h as int) == quarters.quad(),
                None => forall|i: int|
                    LEAVES <= i < self@.len() ==> #[trigger] quad(self@, i) != quarters.quad(),
            },
    {
        let ghost q = quarters.quad();
        let t = self.find_pair(quarters.tl, quarters.tr);
        let b = self.find_pair(quarters.bl, quarters.br);
        if t.is_none() || b.is_none() {
            proof {
                assert forall|i: int| LEAVES <= i < self@.len() implies #[trigger] quad(self@, i)
                    != q by {
                    assert(self.key_of(quad(self.nodes@, i)) is Some);
                }
            }
            return None;
        }
        let k = pack_exec(t.unwrap(), b.unwrap());
        assert(self.key_of(q) == Some(k));
        match self.table.get(&k) {
            Some(h) => {
                proof {
                    self.lemma_key_injective(q, quad(self@, *h as int));
                }
                Some(*h)
            },
            None => {
                proof {
                    assert forall|i: int| LEAVES <= i < self@.len() implies #[trigger] quad(
                        self@,
                        i,
                    ) != q by {
                        assert(self.key_of(quad(self.nodes@, i)) is Some);
                    }
                }
                None
            },
        }
    }

    /// Registers `whole` as the canonical branch with children `quarters`;
    /// returns its handle.
    pub fn blueprint(&mut self, quarters: Quarters, whole: Macro) -> (h: usize)
        requires
            old(self).wf(),
            wf_macro(old(self)@, whole),
            whole.quad() == quarters.quad(),
            forall|i: int|
                LEAVES <= i < old(self)@.len() ==> #[trigger] quad(old(self)@, i) != quarters.quad(),
        ensures
            final(self).wf(),
            final(self)@ == old(self)@.push(Cell::Macro(whole)),
            grows(old(self)@, final(self)@),
            h == old(self)@.len(),
    {
        let t = self.number_pair(quarters.tl, quarters.tr);
        let b = self.number_pair(quarters.bl, quarters.br);
        let ghost mid = *self;
        let k = pack_exec(t, b);
        assert(self.key_of(whole.quad()) == Some(k));
        let h = self.nodes.len();
        assert(!self.table@.contains_key(k)) by {
            if self.table@.contains_key(k) {
                let j = self.table@[k] as int;
                self.lemma_key_injective(whole.quad(), quad(self@, j));
            }
        }
        self.nodes.push(Cell::Macro(whole));
        self.table.insert(k, h);
        proof {
            let s0 = mid@;
            let s = self@;
            assert(extends(s0, s));
            assert forall|i: int| 0 <= i < LEAVES implies #[trigger] leaf_ok(s, i) by {
                assert(leaf_ok(s0, i));
            }
            lemma_grows(s0, s);
            assert(whole.size + LEAVES <= h) by {
                lemma_node(s0, whole.tl as int);
            }
            assert forall|i: int| LEAVES <= i < s.len() implies #[trigger] node_ok(s, i) by {
                if i < s0.len() {
                    assert(node_ok(s0, i));
                }
            }
            assert forall|i: int, j: int|
                LEAVES <= i < s.len() && LEAVES <= j < s.len() && i != j implies #[trigger] quad(
                s,
                i,
            ) != #[trigger] quad(s, j) by {
                if i < s0.len() && j < s0.len() {
                    assert(quad(s0, i) != quad(s0, j));
                } else if i < s0.len() {
                    assert(quad(s0, i) != quarters.quad());
                } else {
                    assert(quad(s0, j) != quarters.quad());
                }
            }
            assert forall|kk: u128| #[trigger]
                self.table@.contains_key(kk) implies LEAVES <= self.table@[kk] < self.nodes@.len()
                && self.key_of(quad(self.nodes@, self.table@[kk] as int)) == Some(kk) by {
                if kk != k {
                    assert(mid.table@.contains_key(kk));
                }
            }
            assert forall|i: int|
                LEAVES <= i < self.nodes@.len() implies #[trigger] self.key_of(
                quad(self.nodes@, i),
            ) is Some && self.table@.contains_key(self.key_of(quad(self.nodes@, i))->0)
                && self.table@[self.key_of(quad(self.nodes@, i))->0] == i by {
                if i < s0.len() {
                    assert(mid.key_of(quad(s0, i)) is Some);
                    assert(mid.table@.contains_key(mid.key_of(quad(s0, i))->0));
                }
            }
        }
        h
    }

    /// The cells of `cell` as rows of booleans, top row first.
    pub fn to_grid(&self, cell: usize) -> (g: Vec<Vec<bool>>)
        requires
            self.wf(),
            cell < self@.len(),
        ensures
            g@.len() == side(self@, cell as int),
            forall|r: int| #![trigger g@[r]] 0 <= r < g@.len() ==> g@[r]@ == grid_of(self@, cell as int)[r],
        decreases cell,
    {
        proof {
            lemma_node(self@, cell as int);
        }
        match self.get(cell) {
            Cell::Base(t) => {
                let g = vec![vec![t[0], t[1]], vec![t[2], t[3]]];
                proof {
                    assert(two_pow(1) == 2) by {
                        assert(two_pow(0) == 1);
                    }
                    assert(g@[0]@ =~= grid_of(self@, cell as int)[0]);
                    assert(g@[1]@ =~= grid_of(self@, cell as int)[1]);
                }
                g
            },
            Cell::Macro(m) => {
                let tl = self.to_grid(m.tl);
                let tr = self.to_grid(m.tr);
                let bl = self.to_grid(m.bl);
                let br = self.to_grid(m.br);
                let ghost n = two_pow((m.size + 1) as nat);
                let ghost s = self@;
                assert(side(s, cell as int) == 2 * n);
                let mut g: Vec<Vec<bool>> = Vec::new();
                let mut i: usize = 0;
                while i < tl.len()
                    invariant
                        i <= n,
                        tl@.len() == n && tr@.len() == n && bl@.len() == n && br@.len() == n,
                        forall|k: int| #![trigger tl@[k]] 0 <= k < n ==> tl@[k]@ == grid_of(s, m.tl as int)[k],
                        forall|k: int| #![trigger tr@[k]] 0 <= k < n ==> tr@[k]@ == grid_of(s, m.tr as int)[k],
                        forall|k: int| #![trigger bl@[k]] 0 <= k < n ==> bl@[k]@ == grid_of(s, m.bl as int)[k],
                        forall|k: int| #![trigger br@[k]] 0 <= k < n ==> br@[k]@ == grid_of(s, m.br as int)[k],
                        forall|k: int| #![trigger g@[k]] 0 <= k < i ==> g@[k]@ == tl@[k]@ + tr@[k]@,
                        g@.len() == i,
                    decreases n - i,
                {
                    g.push(concat_bools(&tl[i], &tr[i]));
                    i = i + 1;
                }
                let mut i: usize = 0;
                while i < bl.len()
                    invariant
                        i <= n,
                        tl@.len() == n && tr@.len() == n && bl@.len() == n && br@.len() == n,
                        forall|k: int| #![trigger tl@[k]] 0 <= k < n ==> tl@[k]@ == grid_of(s, m.tl as int)[k],
                        forall|k: int| #![trigger tr@[k]] 0 <= k < n ==> tr@[k]@ == grid_of(s, m.tr as int)[k],
                        forall|k: int| #![trigger bl@[k]] 0 <= k < n ==> bl@[k]@ == grid_of(s, m.bl as int)[k],
                        forall|k: int| #![trigger br@[k]] 0 <= k < n ==> br@[k]@ == grid_of(s, m.br as int)[k],
                        forall|k: int| #![trigger g@[k]] 0 <= k < n ==> g@[k]@ == tl@[k]@ + tr@[k]@,
                        forall|k: int| #![trigger g@[k]] n <= k < n + i ==> g@[k]@ == bl@[k - n]@ + br@[k - n]@,
                        g@.len() == n + i,
                    decreases n - i,
                {
                    g.push(concat_bools(&bl[i], &br[i]));
                    i = i + 1;
                }
                proof {
                    assert forall|r: int| #![trigger g@[r]] 0 <= r < g@.len() implies g@[r]@ == grid_of(s, cell as int)[r] by {
                        if r < n {
                            assert(g@[r]@ == tl@[r]@ + tr@[r]@);
                            assert(g@[r]@ =~= grid_of(s, cell as int)[r]);
                        } else {
                            assert(g@[r]@ == bl@[r - n]@ + br@[r - n]@);
                            assert(g@[r]@ =~= grid_of(s, cell as int)[r]);
                        }
                    }
                }
                g
            },
        }
    }

    /// The cells of `cell` drawn as text: `#` for a live cell, `_` for a
    /// dead one, each row ended by a newline.
    pub fn to_string(&self, cell: usize) -> (text: String)
        requires
            self.wf(),
            cell < self@.len(),
        ensures
            text@ == render(grid_of(self@, cell as int)),
    {
        let g = self.to_grid(cell);
        let ghost rows = grid_of(self@, cell as int);
        let mut text = String::new();
        proof {
            reveal_strlit("#");
            reveal_strlit("_");
            reveal_strlit("\n");
            assert(rows.take(0) =~= Seq::<Seq<bool>>::empty());
        }
        let mut i: usize = 0;
        while i < g.len()
            invariant
                i <= g@.len(),
                g@.len() == rows.len(),
                forall|r: int| #![trigger g@[r]] 0 <= r < g@.len() ==> g@[r]@ == rows[r],
                text@ == render(rows.take(i as int)),
            decreases g@.len() - i,
        {
            let row = &g[i];
            let ghost before = text@;
            let mut j: usize = 0;
            while j < row.len()
                invariant
                    j <= row@.len(),
                    text@ == before + render_row(row@.take(j as int)),
                decreases row@.len() - j,
            {
                if row[j] {
                    text.append("#");
                } else {
                    text.append("_");
                }
                proof {
                    reveal_strlit("#");
                    reveal_strlit("_");
                    assert(render_row(row@.take(j + 1)) =~= render_row(row@.take(j as int)) + seq![
                        if row@[j as int] { '#' } else { '_' },
                    ]);
                }
                j = j + 1;
            }
            text.append("\n");
            proof {
                reveal_strlit("\n");
                assert(row@.take(row@.len() as int) =~= row@);
                assert(rows.take(i + 1).drop_last() =~= rows.take(i as int));
                assert(rows.take(i + 1).last() == rows[i as int]);
            }
            i = i + 1;
        }
        proof {
            assert(rows.take(rows.len() as int) =~= rows);
        }
        text
    }

    /// A new world and the node in it that holds `grid` (true: alive) in its
    /// top-left corner, in the smallest square of side a power of two, at
    /// least 2, that holds every row; missing cells are dead.
    pub fn from_grid(grid: Vec<Vec<bool>>) -> (res: (World, usize))
        requires
            grid@.len() <= usize::MAX / 2,
            forall|i: int| 0 <= i < grid@.len() ==> #[trigger] grid@[i]@.len() <= usize::MAX / 2,
        ensures
            res.0.wf(),
            res.1 < res.0@.len(),
            fits(grid@, side(res.0@, res.1 as int) as int),
            side(res.0@, res.1 as int) == 2 || !fits(grid@, (side(res.0@, res.1 as int) / 2) as int),
            forall|r: int, c: int|
                0 <= r < side(res.0@, res.1 as int) && 0 <= c < side(res.0@, res.1 as int)
                    ==> #[trigger] alive(res.0@, res.1 as int, r, c) == input_at(grid@, r, c),
    {
        let height = grid.len();
        let mut width: usize = 0;
        let mut i: usize = 0;
        while i < grid.len()
            invariant
                i <= grid@.len(),
                width <= usize::MAX / 2,
                forall|k: int| 0 <= k < i ==> #[trigger] grid@[k]@.len() <= width,
                forall|k: int| 0 <= k < grid@.len() ==> #[trigger] grid@[k]@.len() <= usize::MAX / 2,
                width == 0 || exists|k: int| 0 <= k < i && #[trigger] grid@[k]@.len() == width,
            decreases grid@.len() - i,
        {
            if grid[i].len() > width {
                width = grid[i].len();
            }
            i = i + 1;
        }
        // the side: the smallest power of two, at least 2, that holds the grid
        let mut p: usize = 2;
        let ghost mut k: nat = 1;
        assert(two_pow(1) == 2) by {
            assert(two_pow(0) == 1);
        }
        while p < height || p < width
            invariant
                p == two_pow(k),
                k >= 1,
                height == grid@.len(),
                height <= usize::MAX / 2,
                width <= usize::MAX / 2,
                forall|i: int| 0 <= i < grid@.len() ==> #[trigger] grid@[i]@.len() <= width,
                width == 0 || exists|i: int| 0 <= i < grid@.len() && #[trigger] grid@[i]@.len() == width,
                p == 2 || p / 2 < height || p / 2 < width,
                p >= 2,
            decreases usize::MAX - p,
        {
            p = p * 2;
            proof {
                k = k + 1;
            }
        }
        assert(fits(grid@, p as int));
        assert(p == 2 || !fits(grid@, (p / 2) as int));
        // the leaves, each holding a 2x2 square of the grid
        let t = p / 2;
        assert(two_pow((k - 1) as nat) == t);
        let mut world = World::blank();
        let mut tiles: Vec<Vec<usize>> = Vec::new();
        let mut i: usize = 0;
        while i < t
            invariant
                t == p / 2,
                p <= usize::MAX,
                i <= t,
                world.wf(),
                world@.len() == LEAVES,
                tiles@.len() == i,
                forall|a: int| #![trigger tiles@[a]] 0 <= a < i ==> tiles@[a]@.len() == t,
                forall|a: int, b: int| #![trigger tiles@[a]@[b]] 0 <= a < i && 0 <= b < t ==> tiles@[a]@[b] < LEAVES
                    && bits(tiles@[a]@[b] as int) == seq![
                        input_at(grid@, 2 * a, 2 * b),
                        input_at(grid@, 2 * a, 2 * b + 1),
                        input_at(grid@, 2 * a + 1, 2 * b),
                        input_at(grid@, 2 * a + 1, 2 * b + 1),
                    ],
            decreases t - i,
        {
            let mut row: Vec<usize> = Vec::new();
            let mut j: usize = 0;
            while j < t
                invariant
                    t == p / 2,
                    i < t,
                    j <= t,
                    row@.len() == j,
                    forall|b: int| #![trigger row@[b]] 0 <= b < j ==> row@[b] < LEAVES
                        && bits(row@[b] as int) == seq![
                            input_at(grid@, 2 * i, 2 * b),
                            input_at(grid@, 2 * i, 2 * b + 1),
                            input_at(grid@, 2 * i + 1, 2 * b),
                            input_at(grid@, 2 * i + 1, 2 * b + 1),
                        ],
                decreases t - j,
            {
                let tile = [
                    read(&grid, 2 * i, 2 * j),
                    read(&grid, 2 * i, 2 * j + 1),
                    read(&grid, 2 * i + 1, 2 * j),
                    read(&grid, 2 * i + 1, 2 * j + 1),
                ];
                let h = World::leaf(tile);
                assert(tile@ =~= seq![
                    input_at(grid@, 2 * i, 2 * j),
                    input_at(grid@, 2 * i, 2 * j + 1),
                    input_at(grid@, 2 * i + 1, 2 * j),
                    input_at(grid@, 2 * i + 1, 2 * j + 1),
                ]);
                row.push(h);
                j = j + 1;
            }
            tiles.push(row);
            i = i + 1;
        }
        proof {
            assert(two_pow(1) == 2) by {
                assert(two_pow(0) == 1);
            }
            assert forall|a: int, b: int, r: int, c: int|
                0 <= a < t && 0 <= b < t && 0 <= r < two_pow(1) && 0 <= c < two_pow(1)
                implies #[trigger] alive(world@, tiles@[a]@[b] as int, r, c) == input_at(grid@, a * two_pow(1) + r, b * two_pow(1) + c) by {
                lemma_node(world@, tiles@[a]@[b] as int);
                assert(bits(tiles@[a]@[b] as int)[r * 2 + c] == input_at(grid@, 2 * a + r, 2 * b + c));
            }
            assert forall|a: int, b: int| #![trigger tiles@[a]@[b]] 0 <= a < t && 0 <= b < t implies
                tiles@[a]@[b] < world@.len() && depth(world@, tiles@[a]@[b] as int) == 0 by {
                lemma_node(world@, tiles@[a]@[b] as int);
            }
        }
        // join the tiles, two by two, up to one node
        let ghost mut d: nat = 0;
        let ghost mut m: nat = t as nat;
        let ghost mut e: nat = (k - 1) as nat;
        while tiles.len() > 1
            invariant
                world.wf(),
                m == two_pow(e),
                two_pow(d + 1) * m == p,
                covers(world@, tiles@, m, d, grid@),
            decreases m,
        {
            assert(e > 0) by {
                if e == 0 {
                    assert(two_pow(0) == 1);
                }
            }
            assert(m == 2 * two_pow((e - 1) as nat));
            let ghost s0 = world@;
            let ghost old_tiles = tiles@;
            let ghost side0 = two_pow(d + 1);
            assert(rows_ok(s0, old_tiles, m, m, d, false)) by {
                assert forall|a: int| #![trigger old_tiles[a]] 0 <= a < m implies old_tiles[a]@.len() == m && row_ok(s0, old_tiles[a]@, d, false) by {
                    assert forall|b: int| 0 <= b < old_tiles[a]@.len() implies #[trigger] handle_ok(s0, old_tiles[a]@[b], d, false) by {
                        assert(old_tiles[a]@[b] == old_tiles[a]@[b]);
                    }
                }
            }
            tiles = Cell::build_up(tiles, &mut world, Ghost(d), Ghost(false));
            proof {
                let s1 = world@;
                let half = m / 2;
                assert(two_pow(d + 2) == 2 * side0);
                assert forall|a: int, b: int, r: int, c: int|
                    0 <= a < half && 0 <= b < half && 0 <= r < two_pow(d + 2) && 0 <= c < two_pow(d + 2)
                    implies #[trigger] alive(s1, tiles@[a]@[b] as int, r, c) == input_at(grid@, a * two_pow(d + 2) + r, b * two_pow(d + 2) + c) by {
                    let h = tiles@[a]@[b];
                    assert(joins(s1, old_tiles, h, a, b));
                    lemma_node(s1, h as int);
                    let ca = old_tiles[2 * a]@[2 * b];
                    let cb = old_tiles[2 * a]@[2 * b + 1];
                    let cc = old_tiles[2 * a + 1]@[2 * b];
                    let cd = old_tiles[2 * a + 1]@[2 * b + 1];
                    assert(depth(s0, ca as int) == d);
                    assert(handle_ok(s1, h, d + 1, false)) by {
                        assert(tiles@[a]@.len() == half);
                        assert(row_ok(s1, tiles@[a]@, d + 1, false));
                    }
                    assert(s1[ca as int] == s0[ca as int]);
                    assert(s1[h as int]->Macro_0.size == d);
                    lemma_alive_grows(s0, s1, ca as int);
                    lemma_alive_grows(s0, s1, cb as int);
                    lemma_alive_grows(s0, s1, cc as int);
                    lemma_alive_grows(s0, s1, cd as int);
                    assert(a * two_pow(d + 2) == (2 * a) * side0) by (nonlinear_arith)
                        requires two_pow(d + 2) == 2 * side0;
                    assert(b * two_pow(d + 2) == (2 * b) * side0) by (nonlinear_arith)
                        requires two_pow(d + 2) == 2 * side0;
                    assert((2 * a + 1) * side0 == (2 * a) * side0 + side0) by (nonlinear_arith);
                    assert((2 * b + 1) * side0 == (2 * b) * side0 + side0) by (nonlinear_arith);
                    if r < side0 {
                        if c < side0 {
                            assert(alive(s1, h as int, r, c) == alive(s1, ca as int, r, c));
                            assert(alive(s0, ca as int, r, c) == input_at(grid@, (2 * a) * side0 + r, (2 * b) * side0 + c));
                        } else {
                            assert(alive(s1, h as int, r, c) == alive(s1, cb as int, r, c - side0));
                            assert(alive(s0, cb as int, r, c - side0) == input_at(grid@, (2 * a) * side0 + r, (2 * b + 1) * side0 + c - side0));
                        }
                    } else {
                        if c < side0 {
                            assert(alive(s1, h as int, r, c) == alive(s1, cc as int, r - side0, c));
                            assert(alive(s0, cc as int, r - side0, c) == input_at(grid@, (2 * a + 1) * side0 + r - side0, (2 * b) * side0 + c));
                        } else {
                            assert(alive(s1, h as int, r, c) == alive(s1, cd as int, r - side0, c - side0));
                            assert(alive(s0, cd as int, r - side0, c - side0) == input_at(grid@, (2 * a + 1) * side0 + r - side0, (2 * b + 1) * side0 + c - side0));
                        }
                    }
                }
                assert forall|a: int, b: int| #![trigger tiles@[a]@[b]] 0 <= a < half && 0 <= b < half implies
                    tiles@[a]@[b] < s1.len() && depth(s1, tiles@[a]@[b] as int) == d + 1 by {
                    assert(joins(s1, old_tiles, tiles@[a]@[b], a, b));
                    assert(handle_ok(s1, tiles@[a]@[b], d + 1, false)) by {
                        assert(tiles@[a]@.len() == half);
                        assert(row_ok(s1, tiles@[a]@, d + 1, false));
                    }
                }
                assert(two_pow(d + 2) * half == p) by (nonlinear_arith)
                    requires two_pow(d + 2) == 2 * side0, side0 * m == p, m == 2 * half;
                d = d + 1;
                m = half;
                e = (e - 1) as nat;
            }
        }
        assert(m == 1) by {
            if m != 1 {
                lemma_two_pow_pos(e);
            }
        }
        let cell = tiles[0][0];
        proof {
            assert(tiles@[0]@[0] < world@.len() && depth(world@, tiles@[0]@[0] as int) == d);
            assert(two_pow(d + 1) == p) by (nonlinear_arith)
                requires two_pow(d + 1) * m == p, m == 1;
            assert(side(world@, cell as int) == p);
            assert forall|r: int, c: int|
                0 <= r < p && 0 <= c < p implies #[trigger] alive(world@, cell as int, r, c) == input_at(grid@, r, c) by {
                assert(alive(world@, tiles@[0]@[0] as int, r, c) == input_at(grid@, 0 * two_pow(d + 1) + r, 0 * two_pow(d + 1) + c));
            }
        }
        (world, cell)
    }

    /// One line of a pattern file as a row of cells: `#` is alive, any other
    /// byte is dead.
    pub fn parse_line(line: &[u8]) -> (row: Vec<bool>)
        ensures
            row@ == line@.map_values(|b: u8| b == 35u8),
    {
        let mut row: Vec<bool> = Vec::new();
        let mut i: usize = 0;
        while i < line.len()
            invariant
                i <= line@.len(),
                row@ == line@.take(i as int).map_values(|b: u8| b == 35u8),
            decreases line@.len() - i,
        {
            row.push(line[i] == 35u8);
            i = i + 1;
            assert(row@ =~= line@.take(i as int).map_values(|b: u8| b == 35u8));
        }
        assert(line@.take(line@.len() as int) =~= line@);
        row
    }
}

} // verus!
