use std::collections::VecDeque;

use oxscape::elev::{f64_bits_from_key, key_from_f64_bits};
use oxscape::error::GridErrorKind;
use oxscape::flats::{resolve_flats_seeded, resolve_flats_seeded_dirs, UNPROCESSED};
use oxscape::grid::{GridMeta, NO_FLOW};
use oxscape::priority_flood::priority_flood_wei2018;

fn keys(vals: &[f64]) -> Vec<u64> {
    vals.iter().map(|v| key_from_f64_bits(v.to_bits())).collect()
}

fn vals(keys: &[u64]) -> Vec<f64> {
    keys.iter().map(|k| f64::from_bits(f64_bits_from_key(*k))).collect()
}

#[test]
fn test_fill() {
    let mut dem = keys(&[
        1.0,1.0,1.0,
        1.0,0.0,1.0,
        1.0,1.0,1.0,
    ]);
    priority_flood_wei2018(&mut dem, &GridMeta::new(3,3)).unwrap();
    assert_eq!(vals(&dem), [
        1.0, 1.0, 1.0,
        1.0, 1.0000000000000002, 1.0,
        1.0, 1.0, 1.0
    ]);
}

#[test]
fn test_fill_two() {
    let mut dem = keys(&[
        1.0,0.5,1.0,
        1.0,0.4,1.0,
        1.0,0.4,1.0,
        1.0,1.0,1.0,
    ]);
    priority_flood_wei2018(&mut dem, &GridMeta::new(3,4)).unwrap();
    assert_eq!(vals(&dem), [
        1.0, 0.5, 1.0,
        1.0, 0.5000000000000001, 1.0,
        1.0, 0.5000000000000002, 1.0,
        1.0, 1.0, 1.0
    ]);
}

#[test]
fn priority_flood_rejects_a_wrong_size() {
    let mut dem = keys(&[1.0, 2.0, 3.0]);
    let err = priority_flood_wei2018(&mut dem, &GridMeta::new(2, 2)).unwrap_err();
    assert_eq!(err.kind(), GridErrorKind::SizeMismatch { found: 3, expected: 4 });
    assert_eq!(vals(&dem), [1.0, 2.0, 3.0]);
}

#[test]
fn priority_flood_leaves_no_pits() {
    let meta = GridMeta::new(5, 5);
    let before = keys(&[
        5.0, 5.0, 5.0, 5.0, 5.0,
        5.0, 1.0, 2.0, 1.0, 5.0,
        5.0, 2.0, 0.0, 2.0, 3.0,
        5.0, 1.0, 2.0, 1.0, 5.0,
        5.0, 5.0, 5.0, 5.0, 5.0,
    ]);
    let mut dem = before.clone();
    priority_flood_wei2018(&mut dem, &meta).unwrap();
    for c in 0..meta.size() {
        assert!(dem[c] >= before[c]);
        let (x, y) = meta.i_to_xy(c);
        if meta.is_edge_cell(x, y) {
            assert_eq!(dem[c], before[c]);
        } else {
            // some neighbour lies strictly lower
            let lower = (0..8u8)
                .filter_map(|d| meta.try_shift(x, y, d))
                .any(|n| dem[n] < dem[c]);
            assert!(lower, "cell {c} is a pit");
        }
    }
    // the depression spills over the edge cell of elevation 3
    assert!(vals(&dem)[12] > 3.0 && vals(&dem)[12] < 3.0001);
}

#[test]
fn test_sresolve_flats_seeded() {
    let dem = keys(&[
       1.5,1.0,1.5,
       1.6,1.0,1.6,
       1.7,1.0,1.7,
       1.8,1.9,1.8
    ]);
    let mut receivers = [NO_FLOW; 12];
    let mut front = VecDeque::from([1]);
    let mut levels = [UNPROCESSED; 12];
    resolve_flats_seeded(&GridMeta::new(3,4), &dem, &mut receivers, &mut front, &mut levels);
    assert_eq!(receivers, [
        NO_FLOW,NO_FLOW,NO_FLOW,
        NO_FLOW,      2,NO_FLOW,
        NO_FLOW,      2,NO_FLOW,
        NO_FLOW,NO_FLOW,NO_FLOW,
    ]);
    const U: u32 = UNPROCESSED;
    assert_eq!(levels, [
        U,0,U,
        U,1,U,
        U,2,U,
        U,U,U,
    ]);
    assert!(front.is_empty());
}

#[test]
fn test_sresolve_flats_seeded_tworow() {
    let dem = keys(&[
       1.5,1.0,1.0,1.5,
       1.6,1.0,1.0,1.6,
       1.7,1.0,1.0,1.7,
       1.8,1.9,1.9,1.8,
    ]);
    let mut receivers = [NO_FLOW; 16];
    let mut front = VecDeque::from([1]);
    let mut levels = [UNPROCESSED; 16];
    resolve_flats_seeded(&GridMeta::new(4,4), &dem, &mut receivers, &mut front, &mut levels);
    assert_eq!(receivers, [
        NO_FLOW,NO_FLOW,      0,NO_FLOW,
        NO_FLOW,      2,      1,NO_FLOW,
        NO_FLOW,      3,      2,NO_FLOW, // 3 is kinda arbitrary and decided by visiting order
        NO_FLOW,NO_FLOW,NO_FLOW,NO_FLOW,
    ]);
}

#[test]
fn resolve_flats_levels_are_distances() {
    // two seeds on a flat: every cell gets its distance to the nearer seed
    let dem = keys(&[1.0; 10]);
    let mut receivers = [NO_FLOW; 10];
    let mut front = VecDeque::from([0, 9]);
    let mut levels = [0; 10];
    resolve_flats_seeded(&GridMeta::new(5, 2), &dem, &mut receivers, &mut front, &mut levels);
    assert_eq!(levels, [
        0,1,2,1,1,
        1,1,2,1,0,
    ]);
    // seeds keep their receivers
    assert_eq!(receivers[0], NO_FLOW);
    assert_eq!(receivers[9], NO_FLOW);
}

#[test]
fn mod_test_edge() {
    // so this here is a draining bottom edge. it flows into the catchment
    // with a global spill elevation of `0.5` Therefore, the middle three cells should be marked as seed cells
    let _edge = vec![1.0, 0.5, 0.25, 0.125, 1.0];

    // for "clarity", labels are global here.
    let _labels = vec![0, 0, 0, 0, 0, 0];
    // these are needed to show that they all drain to the same catchment
    let _bottom_neighbour_labels = vec![1, 1, 1, 1, 1];
    // label 0 is later than label 1, so 1->0 (1 receives from 0; 0 drains into 1, flow accumulation is in reverse order);
    let _label_order = vec![1, 0];

    let _label_elevs = vec![0.5];
    let _expected = vec![1, 2, 3];
    // however, if spill elevation was 0.25
    let _label_elevs = vec![0.25];
    let _expected = vec![2, 3];
}

#[test]
fn test_bad() {
    // example of a hostile dem:
    let _dem = [
        [
            1.0,0.5,1.0,1.0,
            1.0,0.2,0.2,1.0,
            1.0,0.2,0.2,1.0,
            1.0,0.2,0.2,1.0,
        ],
        [
            1.0,0.2,0.2,1.0,
            1.0,0.2,0.2,1.0,
            1.0,0.2,0.2,1.0,
            1.0,1.0,1.0,1.0,
        ]
    ];
    let _raised = [
        [
            1.0,0.5,1.0,1.0,
            1.0,0.5,0.5,1.0,
            1.0,0.5,0.5,1.0,
            1.0,0.5,0.5,1.0,
        ],
        [
            1.0,0.5,0.5,1.0,
            1.0,0.5,0.5,1.0,
            1.0,0.5,0.5,1.0,
            1.0,1.0,1.0,1.0,
        ]
    ];
    // and now the top edge of tile 1 will be rather arbitrarily flowing to
    // either the left or right; both top cells have to be added to the queue.
}

#[test]
fn test_ugly() {
    // example of a hostile dem:
    // the bottom edge of top tile has unequal levels.
    let _dem = [
        [
            1.0,1.0,1.0,1.0,1.0,
            1.0,0.2,0.2,0.2,1.0,
            0.5,0.2,0.2,0.2,1.0,
            1.0,0.2,0.2,0.2,1.0,
        ],
        [
            1.0,0.2,0.2,0.2,1.0,
            1.0,0.2,0.2,0.2,1.0,
            1.0,0.2,0.2,0.2,1.0,
            1.0,1.0,1.0,1.0,1.0,
        ]
    ];
    let _raised = [
        [
            1.0,1.0,1.0,1.0,1.0,
            1.0,0.5,0.5,0.5,1.0,
            0.5,0.5,0.5,0.5,1.0,
            1.0,0.5,0.5,0.5,1.0,
        ],
        [
            1.0,0.5,0.5,0.5,1.0,
            1.0,0.5,0.5,0.5,1.0,
            1.0,0.5,0.5,0.5,1.0,
            1.0,1.0,1.0,1.0,1.0,
        ]
    ];
    // and now the top edge of tile 1 will have seeds that should be on
    // different levels.
}

#[test]
fn test_re_entrant() {
    let _dem = [[
        1.0,1.0,1.0,1.0,1.0,1.0,1.0,
        1.0,0.2,0.2,1.0,0.2,0.2,1.0,
        1.0,0.2,0.2,1.0,0.2,0.2,1.0,
    ],[
        0.5,1.0,1.0,0.2,1.0,1.0,1.0,
        1.0,1.0,1.0,1.0,1.0,1.0,1.0,
        1.0,1.0,1.0,1.0,1.0,1.0,1.0,
    ]];
    let _filled = [[
        1.0,1.0,1.0,1.0,1.0,1.0,1.0,
        1.0,0.5,0.5,1.0,0.5,0.5,1.0,
        1.0,0.5,0.5,1.0,0.5,0.5,1.0,
    ],[
        0.5,1.0,1.0,0.5,1.0,1.0,1.0,
        1.0,1.0,1.0,1.0,1.0,1.0,1.0,
        1.0,1.0,1.0,1.0,1.0,1.0,1.0,
    ]];
    // re-entrant case should be fine, because we have access to labels and
    // only seed edge cells that hug a neighbouring downstream label
}

#[test]
fn wei_fill_raises_a_cell_behind_a_pit_slope_two_keys() {
    // the pit at (1,1) drains left; the slope cell (2,1) found from it is
    // queued one key above its own elevation, so the flat cell (3,1) behind
    // it ends two keys above 5.0, where one would let it drain
    let mut dem = keys(&[
        9.0, 9.0, 9.0, 9.0, 9.0,
        0.0, -1.0, 5.0, 5.0, 9.0,
        9.0, 9.0, 9.0, 9.0, 9.0,
    ]);
    priority_flood_wei2018(&mut dem, &GridMeta::new(5, 3)).unwrap();
    let filled = vals(&dem);
    assert_eq!(filled[6], f64::from_bits(1));
    assert_eq!(filled[7], 5.0);
    assert_eq!(filled[8], f64::from_bits(5.0f64.to_bits() + 2));
}

#[test]
fn flat_dirs_mark_every_neighbour_one_level_lower() {
    let dem = keys(&[
        1.5, 1.0, 1.0, 1.5,
        1.6, 1.0, 1.0, 1.6,
        1.7, 1.0, 1.0, 1.7,
        1.8, 1.9, 1.9, 1.8,
    ]);
    let mut front = VecDeque::from([1]);
    let mut levels = vec![UNPROCESSED; 16];
    let dirs = resolve_flats_seeded_dirs(&GridMeta::new(4, 4), &dem, &mut front, &mut levels);
    assert!(front.is_empty());
    let f = false;
    let t = true;
    assert_eq!(dirs[1], [f; 8]);
    assert_eq!(dirs[2], [t, f, f, f, f, f, f, f]);
    assert_eq!(dirs[5], [f, f, t, f, f, f, f, f]);
    assert_eq!(dirs[6], [f, t, f, f, f, f, f, f]);
    assert_eq!(dirs[9], [f, f, t, t, f, f, f, f]);
    assert_eq!(dirs[10], [f, t, t, f, f, f, f, f]);
    assert_eq!(dirs[0], [f; 8]);
    assert_eq!(levels[9], 2);
}

#[test]
fn wei_fill_raises_a_flat_cell_at_its_spill_level() {
    // the centre lies at its spill level (5.0, over the edge), yet the
    // epsilon fill raises it one key to give it a gradient towards the edge
    let mut dem = keys(&[
        5.0, 5.0, 5.0,
        5.0, 5.0, 5.0,
        5.0, 5.0, 5.0,
    ]);
    priority_flood_wei2018(&mut dem, &GridMeta::new(3, 3)).unwrap();
    let filled = vals(&dem);
    assert_eq!(filled[4], f64::from_bits(5.0f64.to_bits() + 1));
}
