use vstd::prelude::*;
use crate::cell::Cell;
use crate::world::{depth, grows, node_ok, wf_macro, World, LEAVES};

verus! {

/// A branch of the quadtree: four children of equal size, the memoised
/// result of its centre, its size and whether it is entirely dead.
///
/// A branch of size `k` covers a square of side `2^(k+2)`; its `result` is
/// the centre square of side `2^(k+1)` after `2^k` generations (one
/// generation when `k == 0`). All node fields are handles into a `World`.
#[derive(Debug, Clone, Copy)]
pub struct Macro {
    pub tl: usize,
    pub tr: usize,
    pub bl: usize,
    pub br: usize,
    pub result: usize,
    pub size: usize,
    pub is_dead: bool,
}

impl Macro {
    /// The four children, in reading order.
    pub open spec fn quad(&self) -> (usize, usize, usize, usize) {
        (self.tl, self.tr, self.bl, self.br)
    }

    /// Joins two side-by-side branches: the branch centred on their common edge.
    pub fn horiz(left: &Macro, right: &Macro, world: &mut World) -> (r: Macro)
        requires
            old(world).wf(),
            wf_macro(old(world)@, *left),
            wf_macro(old(world)@, *right),
            right.size == left.size,
        ensures
            final(world).wf(),
            grows(old(world)@, final(world)@),
            wf_macro(final(world)@, r),
            exists|h: int| LEAVES <= h < final(world)@.len() && #[trigger] final(world)@[h] == Cell::Macro(r),
            r.quad() == (left.tr, right.tl, left.br, right.bl),
            r.size == left.size,
        decreases left.size as int, 2int,
    {
        let h = Cell::new(left.tr, right.tl, left.br, right.bl, world);
        proof {
            assert(node_ok(world@, h as int));
        }
        let r = world.get(h).unwrap_macro();
        assert(world@[h as int] == Cell::Macro(r));
        r
    }

    /// Joins two stacked branches: the branch centred on their common edge.
    pub fn vert(top: &Macro, bottom: &Macro, world: &mut World) -> (r: Macro)
        requires
            old(world).wf(),
            wf_macro(old(world)@, *top),
            wf_macro(old(world)@, *bottom),
            bottom.size == top.size,
        ensures
            final(world).wf(),
            grows(old(world)@, final(world)@),
            wf_macro(final(world)@, r),
            exists|h: int| LEAVES <= h < final(world)@.len() && #[trigger] final(world)@[h] == Cell::Macro(r),
            r.quad() == (top.bl, top.br, bottom.tl, bottom.tr),
            r.size == top.size,
        decreases top.size as int, 2int,
    {
        let h = Cell::new(top.bl, top.br, bottom.tl, bottom.tr, world);
        proof {
            assert(node_ok(world@, h as int));
        }
        let r = world.get(h).unwrap_macro();
        assert(world@[h as int] == Cell::Macro(r));
        r
    }

    /// The branch at the centre of four branches laid out in a square.
    pub fn center(tl: &Macro, tr: &Macro, bl: &Macro, br: &Macro, world: &mut World) -> (r: Macro)
        requires
            old(world).wf(),
            wf_macro(old(world)@, *tl),
            wf_macro(old(world)@, *tr),
            wf_macro(old(world)@, *bl),
            wf_macro(old(world)@, *br),
            tr.size == tl.size,
            bl.size == tl.size,
            br.size == tl.size,
        ensures
            final(world).wf(),
            grows(old(world)@, final(world)@),
            wf_macro(final(world)@, r),
            exists|h: int| LEAVES <= h < final(world)@.len() && #[trigger] final(world)@[h] == Cell::Macro(r),
            r.quad() == (tl.br, tr.bl, bl.tr, br.tl),
            r.size == tl.size,
        decreases tl.size as int, 2int,
    {
        let h = Cell::new(tl.br, tr.bl, bl.tr, br.tl, world);
        proof {
            assert(node_ok(world@, h as int));
        }
        let r = world.get(h).unwrap_macro();
        assert(world@[h as int] == Cell::Macro(r));
        r
    }

    /// The branch made of the results of four branches laid out in a square:
    /// it covers their common centre, twice as far on in time.
    pub fn consolidate(tl: &Macro, tr: &Macro, bl: &Macro, br: &Macro, world: &mut World) -> (r: Macro)
        requires
            old(world).wf(),
            wf_macro(old(world)@, *tl),
            wf_macro(old(world)@, *tr),
            wf_macro(old(world)@, *bl),
            wf_macro(old(world)@, *br),
            tr.size == tl.size,
            bl.size == tl.size,
            br.size == tl.size,
        ensures
            final(world).wf(),
            grows(old(world)@, final(world)@),
            wf_macro(final(world)@, r),
            exists|h: int| LEAVES <= h < final(world)@.len() && #[trigger] final(world)@[h] == Cell::Macro(r),
            r.quad() == (tl.result, tr.result, bl.result, br.result),
            r.size == tl.size,
        decreases tl.size as int, 2int,
    {
        let h = Cell::new(tl.result, tr.result, bl.result, br.result, world);
        proof {
            assert(node_ok(world@, h as int));
        }
        let r = world.get(h).unwrap_macro();
        assert(world@[h as int] == Cell::Macro(r));
        r
    }
}

} // verus!
