use shoehorn::block::Block;
use shoehorn::codebook::{block_of_levels, groups_to_redo, opposite_code, sign_code};
use shoehorn::ggml_type::GgmlType;
use shoehorn::quant_iq::{
    build_grid, expand_kgrid, find_best_neighbour, grid_iq2s, grid_iq2xs, grid_iq2xxs, grid_iq3s,
    grid_iq3xxs, is_packed_below, GridData, MAP_2BIT, MAP_3BIT,
};
use shoehorn::signs::expand_signs;

/// `n` distinct points with levels below three, packed with two bits each.
fn points_2bit(n: usize) -> Vec<u16> {
    (0..n as u32)
        .map(|i| {
            let mut x = i * 6; // spread over 3^8
            let mut v = 0u16;
            for k in 0..8 {
                v |= ((x % 3) as u16) << (2 * k);
                x /= 3;
            }
            v
        })
        .collect()
}

/// `n` distinct points with levels below eight, packed with three bits each.
fn points_3bit(n: usize) -> Vec<u16> {
    (0..n).map(|i| (i * 7) as u16).collect()
}

#[test]
fn grids_build() {
    assert_eq!(grid_iq2xxs(&points_2bit(256)).grid.len(), 256);
    assert_eq!(grid_iq2xs(&points_2bit(512)).grid.len(), 512);
    assert_eq!(grid_iq2s(&points_2bit(1024)).grid.len(), 1024);
    assert_eq!(grid_iq3xxs(&points_3bit(256)).grid.len(), 256);
    assert_eq!(grid_iq3s(&points_3bit(512)).grid.len(), 512);
    // every on-grid index maps to itself
    let g = grid_iq2xxs(&points_2bit(256));
    let on: usize = g.map.iter().filter(|v| **v >= 0).count();
    assert_eq!(on, 256);
}

#[test]
fn on_grid_indices_map_to_their_points() {
    let packed = points_2bit(256);
    assert!(is_packed_below(&packed, MAP_2BIT));
    let g = grid_iq2xxs(&packed);
    assert_eq!(g.map.len(), MAP_2BIT as usize);
    for (i, p) in packed.iter().enumerate() {
        assert_eq!(g.map[*p as usize], i as i32);
        let levels = g.levels_of(i);
        assert_eq!(levels, (0..8).map(|k| (p >> (2 * k) & 3) as u8).collect::<Vec<u8>>());
        assert_eq!(g.index_of_levels(&levels, 0), *p as usize);
    }
}

#[test]
fn packed_tables_are_checked() {
    assert!(!is_packed_below(&[], MAP_2BIT));
    assert!(!is_packed_below(&[4096], MAP_3BIT));
    assert!(is_packed_below(&[4095], MAP_3BIT));
    assert!(!is_packed_below(&vec![0; 1025], MAP_2BIT));
}

#[test]
fn expansion_gives_odd_coordinates() {
    assert_eq!(expand_kgrid(&[0b10_01_00], 8, 2), vec![[1, 3, 5, 1, 1, 1, 1, 1]]);
    assert_eq!(expand_kgrid(&[0o7410], 4, 3), vec![[1, 3, 9, 15, 0, 0, 0, 0]]);
}

fn distance(g: &GridData, i: usize, idx: usize) -> i32 {
    let bits = if g.dim == 8 { 2 } else { 3 };
    (0..g.dim)
        .map(|k| {
            let c = 2 * (idx >> (bits * k) & ((1 << bits) - 1)) as i32 + 1;
            (g.grid[i][k] as i32 - c).pow(2)
        })
        .sum()
}

#[test]
fn neighbours_are_the_nearest_points() {
    let packed = points_3bit(256);
    let g = grid_iq3xxs(&packed);
    assert_eq!(g.map.len(), MAP_3BIT as usize);
    for u in (0..4096).filter(|u| !packed.contains(&(*u as u16))).step_by(37) {
        assert!(g.map[u] < 0);
        let list = g.neighbours_of(u);
        let mut all: Vec<i32> = (0..256).map(|i| distance(&g, i, u)).collect();
        let worst = list.iter().map(|i| distance(&g, *i as usize, u)).max().unwrap();
        let mut levels = all.clone();
        levels.sort();
        levels.dedup();
        // the points of the two least distances, and no others
        assert_eq!(worst, levels[1]);
        all.retain(|d| *d <= worst);
        assert_eq!(all.len(), list.len());

        let keys: Vec<u32> = list.iter().map(|i| distance(&g, *i as usize, u) as u32).collect();
        let best = find_best_neighbour(&g, u, &keys);
        assert_eq!(distance(&g, best, u), levels[0]);
    }
}

#[test]
fn levels_get_their_codes() {
    let packed = points_3bit(512);
    let g = grid_iq3s(&packed);
    let mut ls = g.levels_of(5);
    ls.extend(g.levels_of(300));
    assert_eq!(g.codes_of_levels(&ls, &[true, true]), Some(vec![5, 300]));
    assert_eq!(g.codes_of_levels(&ls, &[false, true]), Some(vec![0, 300]));
    // the levels of 1 are on no point
    assert_eq!(g.codes_of_levels(&[1, 0, 0, 0], &[true]), None);
    assert_eq!(g.codes_of_levels(&[1, 0, 0, 0], &[false]), Some(vec![0]));
}

#[test]
fn a_grid_of_one_point_is_everyones_neighbour() {
    let g = build_grid(expand_kgrid(&[0], 4, 3), 4, 8, 3, 1);
    assert_eq!(g.map[0], 0);
    for u in 1..8 {
        assert_eq!(g.neighbours_of(u), vec![0]);
    }
}

#[test]
fn levels_become_blocks() {
    let g = grid_iq3xxs(&points_3bit(256));
    let mut levels = Vec::new();
    for i in 0..64 {
        levels.extend(g.levels_of(3 * i));
    }
    let mut live = vec![true; 64];
    live[2] = false;
    let signs: Vec<u8> = (0..32).map(|i| 4 * i).collect();
    let scales: Vec<u8> = (0..8).map(|i| 15 - i).collect();
    let ty = GgmlType::Iq3Xxs;
    let b = block_of_levels(ty, &g, Some((77, scales.clone())), signs.clone(), &levels, &live)
        .unwrap();
    assert!(b.has_shape(ty));
    assert_eq!((b.d, &b.scales, &b.signs), (77, &scales, &signs));
    for (i, c) in b.codes.iter().enumerate() {
        assert_eq!(*c as usize, if i == 2 { 0 } else { 3 * i });
    }
    let mut bytes = Vec::new();
    b.pack(ty, &mut bytes);
    let back = Block::unpack(ty, &bytes);
    for i in [0, 1, 3, 63] {
        assert_eq!(g.levels_of(back.codes[i] as usize), levels[4 * i..4 * i + 4]);
    }
    // without a scale the codes stay, the signs do not
    let b = block_of_levels(ty, &g, None, signs.clone(), &levels, &live).unwrap();
    assert_eq!((b.d, b.scales, b.signs), (0, vec![0; 8], vec![0; 32]));
    assert_eq!(b.codes[5], 15);
    // a live group off the grid has no code
    levels[0] = 1;
    assert!(block_of_levels(ty, &g, None, signs, &levels, &live).is_none());

    let g = grid_iq2xs(&points_2bit(512));
    let b = block_of_levels(
        GgmlType::Iq2Xs,
        &g,
        None,
        vec![5; 32],
        &g.levels_of(7).repeat(32),
        &[true; 32],
    )
    .unwrap();
    assert_eq!((b.codes, b.signs, b.scales), (vec![0; 32], vec![0; 32], vec![0; 16]));
}

#[test]
fn groups_are_redone_by_format() {
    let on = [true, false, true, true];
    assert_eq!(groups_to_redo(GgmlType::Iq2Xxs, &on), vec![true; 4]);
    assert_eq!(groups_to_redo(GgmlType::Iq2Xs, &on), vec![false, true, false, false]);
    assert_eq!(groups_to_redo(GgmlType::Iq3S, &on), vec![true; 4]);
    assert_eq!(groups_to_redo(GgmlType::Iq3S, &[true; 4]), vec![false; 4]);
    assert_eq!(groups_to_redo(GgmlType::Iq3Xxs, &[true; 4]), vec![false; 4]);
}

#[test]
fn opposite_codes_stand_for_opposite_signs() {
    for code in 0..128u8 {
        let other = opposite_code(GgmlType::Iq2Xxs, code);
        assert_eq!(expand_signs(other), !expand_signs(code));
    }
    for code in 0..=255u8 {
        assert_eq!(opposite_code(GgmlType::Iq3S, code), !code);
    }
    let neg = [true, false, false, false, false, false, false, true];
    assert_eq!(sign_code(GgmlType::Iq2S, &neg, 0), (0x81, false));
    assert_eq!(sign_code(GgmlType::Iq3Xxs, &neg, 0), (1, false));
    let neg = [true, false, false, false, false, false, false, false];
    assert_eq!(sign_code(GgmlType::Iq3Xxs, &neg, 1), (3, true));
    assert_eq!(sign_code(GgmlType::Iq3S, &neg, 1), (1, false));
}

#[test]
fn tables_of_any_lattice_are_built() {
    assert_eq!(
        expand_kgrid(&[0b00, 0b11], 2, 1),
        vec![[1, 1, 0, 0, 0, 0, 0, 0], [3, 3, 0, 0, 0, 0, 0, 0]]
    );
    assert_eq!(expand_kgrid(&[0x4321], 3, 4), vec![[3, 5, 7, 0, 0, 0, 0, 0]]);
    assert_eq!(expand_kgrid(&[0xffff], 1, 8), vec![[-1, 0, 0, 0, 0, 0, 0, 0]]);
    assert_eq!(expand_kgrid(&[7], 0, 60), vec![[0; 8]]);

    let points = vec![[1, 1, 0, 0, 0, 0, 0, 0], [3, 3, 0, 0, 0, 0, 0, 0]];
    let g = build_grid(points.clone(), 2, 4, 1, 1);
    assert_eq!(g.map, vec![0, -1, -4, 1]);
    assert_eq!(g.neighbours, vec![2, 0, 1, 2, 0, 1]);
    assert_eq!((g.grid, g.dim), (points, 2));

    // the lists hold all points, nearest first, where no number is asked for
    let points = vec![[1, 0, 0, 0, 0, 0, 0, 0], [7, 0, 0, 0, 0, 0, 0, 0]];
    let g = build_grid(points, 1, 4, 2, 0);
    assert_eq!(g.map, vec![0, -1, -4, 1]);
    assert_eq!(g.neighbours, vec![2, 0, 1, 2, 1, 0]);
    assert!(build_grid(vec![], 1, 0, 2, 3).map.is_empty());
}
