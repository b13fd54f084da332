use hashlife::{Cell, Macro, Quarters, World, DEAD_BASE, LEAVES};
use std::collections::BTreeSet;

fn parse(rows: &[&str]) -> Vec<Vec<bool>> {
    rows.iter().map(|r| r.bytes().map(|b| b == b'#').collect()).collect()
}

fn live_cells(grid: &[Vec<bool>]) -> BTreeSet<(i64, i64)> {
    let mut cells = BTreeSet::new();
    for (r, row) in grid.iter().enumerate() {
        for (c, &alive) in row.iter().enumerate() {
            if alive {
                cells.insert((r as i64, c as i64));
            }
        }
    }
    cells
}

/// The live cells moved so that the smallest row and column are zero.
fn normalised(cells: &BTreeSet<(i64, i64)>) -> BTreeSet<(i64, i64)> {
    let r0 = cells.iter().map(|p| p.0).min().unwrap_or(0);
    let c0 = cells.iter().map(|p| p.1).min().unwrap_or(0);
    cells.iter().map(|&(r, c)| (r - r0, c - c0)).collect()
}

/// One generation of B3/S23 on an unbounded plane, by brute force.
fn naive_step(cells: &BTreeSet<(i64, i64)>) -> BTreeSet<(i64, i64)> {
    let mut candidates = BTreeSet::new();
    for &(r, c) in cells {
        for dr in -1..=1 {
            for dc in -1..=1 {
                candidates.insert((r + dr, c + dc));
            }
        }
    }
    let mut next = BTreeSet::new();
    for &(r, c) in &candidates {
        let mut n = 0;
        for dr in -1..=1 {
            for dc in -1..=1 {
                if (dr != 0 || dc != 0) && cells.contains(&(r + dr, c + dc)) {
                    n += 1;
                }
            }
        }
        if n == 3 || (n == 2 && cells.contains(&(r, c))) {
            next.insert((r, c));
        }
    }
    next
}

fn naive(cells: &BTreeSet<(i64, i64)>, n: usize) -> BTreeSet<(i64, i64)> {
    let mut cur = cells.clone();
    for _ in 0..n {
        cur = naive_step(&cur);
    }
    cur
}

fn jumped_cells(rows: &[&str], n: usize) -> BTreeSet<(i64, i64)> {
    let (mut world, cell) = World::from_grid(parse(rows));
    let out = Cell::jump(cell, n, &mut world);
    live_cells(&world.to_grid(out))
}

const GLIDER: [&str; 8] = [
    "_#______", "__#_____", "###_____", "________", "________", "________", "________", "________",
];

#[test]
fn blank_world_holds_the_leaves() {
    let world = World::blank();
    assert_eq!(world.len(), LEAVES);
    for h in 0..LEAVES {
        match world.get(h) {
            Cell::Base(t) => assert_eq!(World::leaf(t), h),
            Cell::Macro(_) => panic!("a leaf was expected"),
        }
    }
    assert_eq!(World::leaf([false, false, false, false]), DEAD_BASE);
    assert_eq!(World::leaf([true, false, false, true]), 9);
}

#[test]
fn smallest_branch_steps_once() {
    // a vertical blinker in the middle column of a 4x4 square
    let mut world = World::blank();
    let tl = World::leaf([false, true, false, true]);
    let bl = World::leaf([false, true, false, false]);
    let h = Cell::new(tl, DEAD_BASE, bl, DEAD_BASE, &mut world);
    let m = world.get(h).unwrap_macro();
    assert_eq!(m.size, 0);
    // a vertical line in column 1, rows 0 to 2, turns into a horizontal line
    // in row 1, columns 0 to 2
    let grid = world.to_grid(h);
    let cells = live_cells(&grid);
    let next = naive_step(&cells);
    let expected = [
        next.contains(&(1, 1)),
        next.contains(&(1, 2)),
        next.contains(&(2, 1)),
        next.contains(&(2, 2)),
    ];
    assert_eq!(m.result, World::leaf(expected));
    match world.get(m.result) {
        Cell::Base(t) => assert_eq!(t, [true, true, false, false]),
        Cell::Macro(_) => panic!("a leaf was expected"),
    }
}

#[test]
fn interning_returns_the_same_handle() {
    let mut world = World::blank();
    let a = World::leaf([true, false, false, true]);
    let b = World::leaf([false, true, true, false]);
    let h1 = Cell::new(a, b, b, a, &mut world);
    let len = world.len();
    let h2 = Cell::new(a, b, b, a, &mut world);
    assert_eq!(h1, h2);
    assert_eq!(world.len(), len);
    let h3 = Cell::new(b, a, a, b, &mut world);
    assert_ne!(h1, h3);
    assert_eq!(world.try_build(&Quarters::new(a, b, b, a)), Some(h1));
    assert_eq!(world.try_build(&Quarters::new(a, a, a, a)), None);
}

#[test]
fn same_glider_built_twice_is_one_node() {
    let (mut world, g) = World::from_grid(parse(&GLIDER));
    let m = world.get(g).unwrap_macro();
    let again = Cell::new(m.tl, m.tr, m.bl, m.br, &mut world);
    assert_eq!(again, g);
    // the same glider rebuilt from its leaves
    let grid = parse(&GLIDER);
    let mut quads = Vec::new();
    for (qr, qc) in [(0, 0), (0, 4), (4, 0), (4, 4)] {
        let mut leaves = Vec::new();
        for (lr, lc) in [(0, 0), (0, 2), (2, 0), (2, 2)] {
            let r = qr + lr;
            let c = qc + lc;
            leaves.push(World::leaf([grid[r][c], grid[r][c + 1], grid[r + 1][c], grid[r + 1][c + 1]]));
        }
        quads.push(Cell::new(leaves[0], leaves[1], leaves[2], leaves[3], &mut world));
    }
    let rebuilt = Cell::new(quads[0], quads[1], quads[2], quads[3], &mut world);
    assert_eq!(rebuilt, g);
}

#[test]
fn macro_joins_pick_the_right_children() {
    let mut world = World::blank();
    let l = World::leaf([true, false, false, false]);
    let r = World::leaf([false, true, false, false]);
    let x = World::leaf([false, false, true, false]);
    let y = World::leaf([false, false, false, true]);
    let lh = Cell::new(l, r, x, y, &mut world);
    let rh = Cell::new(y, x, r, l, &mut world);
    let left = world.get(lh).unwrap_macro();
    let right = world.get(rh).unwrap_macro();
    let h: Macro = Macro::horiz(&left, &right, &mut world);
    assert_eq!((h.tl, h.tr, h.bl, h.br), (r, y, y, r));
    let v = Macro::vert(&left, &right, &mut world);
    assert_eq!((v.tl, v.tr, v.bl, v.br), (x, y, y, x));
    let c = Macro::center(&left, &right, &left, &right, &mut world);
    assert_eq!((c.tl, c.tr, c.bl, c.br), (y, r, r, y));
    assert_eq!(world.try_build(&Quarters::new(r, y, y, r)).map(|i| world.get(i).unwrap_macro().result), Some(h.result));
    let k = Macro::consolidate(&left, &right, &left, &right, &mut world);
    assert_eq!((k.tl, k.tr, k.bl, k.br), (left.result, right.result, left.result, right.result));
    assert_eq!(k.size, 0);
}

#[test]
fn dead_of_size_is_dead() {
    let mut world = World::blank();
    for k in 0..6 {
        let d = Cell::dead_of_size(k, &mut world);
        let cell = world.get(d);
        assert!(cell.is_all_dead());
        assert_eq!(cell.unwrap_macro().size, k);
        assert_eq!(world.to_grid(d).len(), 1 << (k + 2));
        assert_eq!(Cell::trim(d, &world), DEAD_BASE);
    }
}

#[test]
fn empty_universe_stays_dead() {
    let mut world = World::blank();
    let d = Cell::dead_of_size(5, &mut world);
    let out = Cell::jump(d, 1 << 20, &mut world);
    assert_eq!(out, DEAD_BASE);
    assert!(world.get(out).is_all_dead());
    for n in [1, 2, 3, 7, 100] {
        let d = Cell::dead_of_size(2, &mut world);
        let out = Cell::jump(d, n, &mut world);
        assert!(world.get(out).is_all_dead());
    }
}

#[test]
fn trim_descends_to_the_live_child() {
    let (world, g) = World::from_grid(parse(&GLIDER));
    let t = Cell::trim(g, &world);
    assert_ne!(t, g);
    assert_eq!(world.get(t).unwrap_macro().size, 0);
    assert_eq!(Cell::trim(t, &world), t);
    assert_eq!(normalised(&live_cells(&world.to_grid(t))), normalised(&live_cells(&parse(&GLIDER))));
    // a pattern in two quadrants is not trimmed
    let (world, h) = World::from_grid(parse(&["#___", "____", "____", "___#"]));
    assert_eq!(Cell::trim(h, &world), h);
}

#[test]
fn trim_is_idempotent() {
    let rows = ["________", "________", "________", "________", "_____##_", "_____##_", "________", "________"];
    let (world, h) = World::from_grid(parse(&rows));
    let t = Cell::trim(h, &world);
    assert_eq!(Cell::trim(t, &world), t);
    assert_eq!(normalised(&live_cells(&world.to_grid(t))), normalised(&live_cells(&parse(&rows))));
}

#[test]
fn jump_zero_is_trim() {
    let (mut world, g) = World::from_grid(parse(&GLIDER));
    let t = Cell::trim(g, &world);
    let len = world.len();
    assert_eq!(Cell::jump(g, 0, &mut world), t);
    assert_eq!(world.len(), len);
}

#[test]
fn is_all_dead_matches_rendering() {
    let (world, g) = World::from_grid(parse(&GLIDER));
    let text = world.to_string(g);
    assert!(!world.get(g).is_all_dead());
    assert!(text.contains('#'));
    let m = world.get(g).unwrap_macro();
    for q in [m.tl, m.tr, m.bl, m.br] {
        assert_eq!(world.get(q).is_all_dead(), !world.to_string(q).contains('#'));
    }
    assert!(world.get(m.br).is_all_dead());
}

#[test]
fn to_string_draws_rows() {
    let (world, h) = World::from_grid(parse(&["#_", "_#"]));
    assert_eq!(world.to_string(h), "#_\n_#\n");
    let (world, h) = World::from_grid(parse(&["#"]));
    assert_eq!(world.to_string(h), "#_\n__\n");
    let (world, h) = World::from_grid(parse(&["#__", "", "__#"]));
    assert_eq!(world.to_string(h), "#___\n____\n__#_\n____\n");
}

#[test]
fn round_trip_of_square_grids() {
    let rows = parse(&GLIDER);
    let (world, h) = World::from_grid(rows.clone());
    assert_eq!(world.to_grid(h), rows);
    let small = parse(&["#_", "##"]);
    let (world, h) = World::from_grid(small.clone());
    assert_eq!(world.to_grid(h), small);
}

#[test]
fn jagged_grid_is_padded_with_dead_cells() {
    let (world, h) = World::from_grid(parse(&["#", "_#_#_", "##"]));
    let grid = world.to_grid(h);
    assert_eq!(grid.len(), 8);
    assert!(grid.iter().all(|r| r.len() == 8));
    assert_eq!(live_cells(&grid), live_cells(&parse(&["#", "_#_#_", "##"])));
}

#[test]
fn glider_after_four_generations() {
    let after = jumped_cells(&GLIDER, 4);
    let expected = parse(&[
        "________", "___#____", "____#___", "__###___", "________", "________", "________", "________",
    ]);
    assert_eq!(normalised(&after), normalised(&live_cells(&expected)));
    assert_eq!(after.len(), 5);
}

#[test]
fn blinker_after_two_generations() {
    let rows = ["____", "_###", "____", "____"];
    let after = jumped_cells(&rows, 2);
    assert_eq!(normalised(&after), normalised(&live_cells(&parse(&rows))));
    let once = jumped_cells(&rows, 1);
    assert_eq!(normalised(&once), [(0, 0), (1, 0), (2, 0)].into_iter().collect());
}

#[test]
fn block_is_still_for_a_thousand_generations() {
    let rows = ["____", "_##_", "_##_", "____"];
    for n in [1, 2, 5, 64, 1000] {
        let after = jumped_cells(&rows, n);
        assert_eq!(normalised(&after), normalised(&live_cells(&parse(&rows))));
    }
}

#[test]
fn jump_agrees_with_brute_force() {
    let patterns: [&[&str]; 3] = [
        &GLIDER,
        &["_##_____", "##______", "_#______", "________"],
        &["##_#", "#__#", "_##_", "#_##"],
    ];
    for rows in patterns {
        let start = live_cells(&parse(rows));
        for n in [1, 2, 3, 5, 8, 13, 30] {
            let after = jumped_cells(rows, n);
            assert_eq!(normalised(&after), normalised(&naive(&start, n)), "after {} generations", n);
        }
    }
}

#[test]
fn jumps_add_up() {
    let rows = ["_##_____", "##______", "_#______", "________"];
    for (a, b) in [(1, 2), (3, 4), (7, 9)] {
        let (mut world, h) = World::from_grid(parse(&rows));
        let first = Cell::jump(h, a, &mut world);
        let twice = Cell::jump(first, b, &mut world);
        let once = Cell::jump(h, a + b, &mut world);
        assert_eq!(normalised(&live_cells(&world.to_grid(twice))), normalised(&live_cells(&world.to_grid(once))));
    }
}

#[test]
fn jump_is_deterministic() {
    let (mut world, g) = World::from_grid(parse(&GLIDER));
    let a = Cell::jump(g, 37, &mut world);
    let b = Cell::jump(g, 37, &mut world);
    assert_eq!(a, b);
}

#[test]
fn far_pattern_evolves_after_padding() {
    // a blinker in the far corner of a 16x16 square
    let mut rows = vec!["________________"; 16];
    rows[15] = "_____________###";
    let after = jumped_cells(&rows, 3);
    assert_eq!(normalised(&after), [(0, 0), (1, 0), (2, 0)].into_iter().collect());
}

/// The live cells of a node, found by walking down through live children only.
fn sparse_cells(world: &World, h: usize, r0: i64, c0: i64, out: &mut BTreeSet<(i64, i64)>) {
    let cell = world.get(h);
    if cell.is_all_dead() {
        return;
    }
    match cell {
        Cell::Base(t) => {
            for (k, &alive) in t.iter().enumerate() {
                if alive {
                    out.insert((r0 + (k / 2) as i64, c0 + (k % 2) as i64));
                }
            }
        },
        Cell::Macro(m) => {
            let half = 1i64 << (m.size + 1);
            sparse_cells(world, m.tl, r0, c0, out);
            sparse_cells(world, m.tr, r0, c0 + half, out);
            sparse_cells(world, m.bl, r0 + half, c0, out);
            sparse_cells(world, m.br, r0 + half, c0 + half, out);
        },
    }
}

#[test]
fn glider_large_jump() {
    let (mut world, g) = World::from_grid(parse(&GLIDER));
    let out = Cell::jump(g, 1 << 20, &mut world);
    let mut cells = BTreeSet::new();
    sparse_cells(&world, out, 0, 0, &mut cells);
    assert_eq!(normalised(&cells), normalised(&live_cells(&parse(&GLIDER))));
}

#[test]
fn pattern_lines_parse_hash_as_alive() {
    assert_eq!(World::parse_line(b"_#x#"), vec![false, true, false, true]);
    assert_eq!(World::parse_line(b""), Vec::<bool>::new());
    let (world, h) = World::from_grid(vec![World::parse_line(b"#_"), World::parse_line(b"##")]);
    assert_eq!(world.to_string(h), "#_\n##\n");
}

#[test]
fn result_of_a_loaded_node_is_its_centre_later() {
    // the result of an 8x8 node is its centre 4x4 after two generations
    let (world, g) = World::from_grid(parse(&GLIDER));
    let m = world.get(g).unwrap_macro();
    let centre = live_cells(&world.to_grid(m.result));
    let later: BTreeSet<(i64, i64)> = naive(&live_cells(&parse(&GLIDER)), 2)
        .into_iter()
        .filter(|&(r, c)| (2..6).contains(&r) && (2..6).contains(&c))
        .map(|(r, c)| (r - 2, c - 2))
        .collect();
    assert_eq!(centre, later);
}

#[test]
fn blueprint_registers_a_branch_once() {
    let mut world = World::blank();
    let a = World::leaf([false, true, false, true]);
    let c = World::leaf([false, true, false, false]);
    // the vertical blinker's next generation, inner 2x2: [#, #, _, _]
    let result = World::leaf([true, true, false, false]);
    let m = Macro { tl: a, tr: DEAD_BASE, bl: c, br: DEAD_BASE, result, size: 0, is_dead: false };
    let q = Quarters::new(a, DEAD_BASE, c, DEAD_BASE);
    assert_eq!(world.try_build(&q), None);
    let len = world.len();
    let h = world.blueprint(q, m);
    assert_eq!(h, len);
    assert_eq!(world.len(), len + 1);
    assert_eq!(world.try_build(&q), Some(h));
    assert_eq!(Cell::try_wrap(m, &mut world), h);
    assert_eq!(Cell::new(a, DEAD_BASE, c, DEAD_BASE, &mut world), h);
    assert_eq!(world.len(), len + 1);
}

#[test]
fn try_wrap_builds_a_missing_branch() {
    let mut world = World::blank();
    let a = World::leaf([true, true, true, true]);
    let result = World::leaf([false, false, false, false]);
    let m = Macro { tl: a, tr: a, bl: a, br: a, result, size: 0, is_dead: false };
    let h = Cell::try_wrap(m, &mut world);
    assert_eq!(h, LEAVES);
    assert_eq!(world.to_string(h), "####\n####\n####\n####\n");
    assert_eq!(Cell::new(a, a, a, a, &mut world), h);
}
