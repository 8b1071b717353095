use oxscape::depfill::fill::initial_fill;
use oxscape::depfill::label::get_new_label;
use oxscape::tile::{TileCoord, TileInfo};
use oxscape::fastscape::{compute_donors, compute_donors_mflow, generate_order, generate_order_mflow, NO_FLOW};
use oxscape::grid::GridMeta;

const REC: [i8; 100] = [
    -1, -1, -1, -1, -1, -1, -1, -1, -1, -1,
    -1, -1, -1, -1, -1, -1, -1, -1, -1, -1,
    -1, -1, 0, 2, 2, 2, 2, 2, -1, -1,
    -1, -1, 0, 2, 2, 2, 2, 4, -1, -1,
    -1, -1, 0, 2, 2, 2, 2, 4, -1, -1,
    -1, -1, 0, 2, 2, 2, 2, 4, -1, -1,
    -1, -1, 0, 2, 2, 2, 2, 4, -1, -1,
    -1, -1, 0, 6, 6, 6, 6, 4, -1, -1,
    -1, -1, -1, -1, -1, -1, -1, -1, -1, -1,
    -1, -1, -1, -1, -1, -1, -1, -1, -1, -1,
];

const DONOR: [[usize; 8]; 100] = [
    [0, 0, 0, 0, 0, 0, 0, 0], [0, 0, 0, 0, 0, 0, 0, 0], [0, 0, 0, 0, 0, 0, 0, 0], [0, 0, 0, 0, 0, 0, 0, 0], [0, 0, 0, 0, 0, 0, 0, 0],
    [0, 0, 0, 0, 0, 0, 0, 0], [0, 0, 0, 0, 0, 0, 0, 0], [0, 0, 0, 0, 0, 0, 0, 0], [0, 0, 0, 0, 0, 0, 0, 0], [0, 0, 0, 0, 0, 0, 0, 0],
    [0, 0, 0, 0, 0, 0, 0, 0], [0, 0, 0, 0, 0, 0, 0, 0], [0, 0, 0, 0, 0, 0, 0, 0], [23, 0, 0, 0, 0, 0, 0, 0], [24, 0, 0, 0, 0, 0, 0, 0],
    [25, 0, 0, 0, 0, 0, 0, 0], [26, 0, 0, 0, 0, 0, 0, 0], [27, 0, 0, 0, 0, 0, 0, 0], [0, 0, 0, 0, 0, 0, 0, 0], [0, 0, 0, 0, 0, 0, 0, 0],
    [0, 0, 0, 0, 0, 0, 0, 0], [22, 0, 0, 0, 0, 0, 0, 0], [0, 0, 0, 0, 0, 0, 0, 0], [33, 0, 0, 0, 0, 0, 0, 0], [34, 0, 0, 0, 0, 0, 0, 0],
    [35, 0, 0, 0, 0, 0, 0, 0], [36, 0, 0, 0, 0, 0, 0, 0], [0, 0, 0, 0, 0, 0, 0, 0], [0, 0, 0, 0, 0, 0, 0, 0], [0, 0, 0, 0, 0, 0, 0, 0],
    [0, 0, 0, 0, 0, 0, 0, 0], [32, 0, 0, 0, 0, 0, 0, 0], [0, 0, 0, 0, 0, 0, 0, 0], [43, 0, 0, 0, 0, 0, 0, 0], [44, 0, 0, 0, 0, 0, 0, 0],
    [45, 0, 0, 0, 0, 0, 0, 0], [46, 0, 0, 0, 0, 0, 0, 0], [0, 0, 0, 0, 0, 0, 0, 0], [37, 0, 0, 0, 0, 0, 0, 0], [0, 0, 0, 0, 0, 0, 0, 0],
    [0, 0, 0, 0, 0, 0, 0, 0], [42, 0, 0, 0, 0, 0, 0, 0], [0, 0, 0, 0, 0, 0, 0, 0], [53, 0, 0, 0, 0, 0, 0, 0], [54, 0, 0, 0, 0, 0, 0, 0],
    [55, 0, 0, 0, 0, 0, 0, 0], [56, 0, 0, 0, 0, 0, 0, 0], [0, 0, 0, 0, 0, 0, 0, 0], [47, 0, 0, 0, 0, 0, 0, 0], [0, 0, 0, 0, 0, 0, 0, 0],
    [0, 0, 0, 0, 0, 0, 0, 0], [52, 0, 0, 0, 0, 0, 0, 0], [0, 0, 0, 0, 0, 0, 0, 0], [63, 0, 0, 0, 0, 0, 0, 0], [64, 0, 0, 0, 0, 0, 0, 0],
    [65, 0, 0, 0, 0, 0, 0, 0], [66, 0, 0, 0, 0, 0, 0, 0], [0, 0, 0, 0, 0, 0, 0, 0], [57, 0, 0, 0, 0, 0, 0, 0], [0, 0, 0, 0, 0, 0, 0, 0],
    [0, 0, 0, 0, 0, 0, 0, 0], [62, 0, 0, 0, 0, 0, 0, 0], [0, 0, 0, 0, 0, 0, 0, 0], [0, 0, 0, 0, 0, 0, 0, 0], [0, 0, 0, 0, 0, 0, 0, 0],
    [0, 0, 0, 0, 0, 0, 0, 0], [0, 0, 0, 0, 0, 0, 0, 0], [0, 0, 0, 0, 0, 0, 0, 0], [67, 0, 0, 0, 0, 0, 0, 0], [0, 0, 0, 0, 0, 0, 0, 0],
    [0, 0, 0, 0, 0, 0, 0, 0], [72, 0, 0, 0, 0, 0, 0, 0], [0, 0, 0, 0, 0, 0, 0, 0], [0, 0, 0, 0, 0, 0, 0, 0], [0, 0, 0, 0, 0, 0, 0, 0],
    [0, 0, 0, 0, 0, 0, 0, 0], [0, 0, 0, 0, 0, 0, 0, 0], [0, 0, 0, 0, 0, 0, 0, 0], [77, 0, 0, 0, 0, 0, 0, 0], [0, 0, 0, 0, 0, 0, 0, 0],
    [0, 0, 0, 0, 0, 0, 0, 0], [0, 0, 0, 0, 0, 0, 0, 0], [0, 0, 0, 0, 0, 0, 0, 0], [73, 0, 0, 0, 0, 0, 0, 0], [74, 0, 0, 0, 0, 0, 0, 0],
    [75, 0, 0, 0, 0, 0, 0, 0], [76, 0, 0, 0, 0, 0, 0, 0], [0, 0, 0, 0, 0, 0, 0, 0], [0, 0, 0, 0, 0, 0, 0, 0], [0, 0, 0, 0, 0, 0, 0, 0],
    [0, 0, 0, 0, 0, 0, 0, 0], [0, 0, 0, 0, 0, 0, 0, 0], [0, 0, 0, 0, 0, 0, 0, 0], [0, 0, 0, 0, 0, 0, 0, 0], [0, 0, 0, 0, 0, 0, 0, 0],
    [0, 0, 0, 0, 0, 0, 0, 0], [0, 0, 0, 0, 0, 0, 0, 0], [0, 0, 0, 0, 0, 0, 0, 0], [0, 0, 0, 0, 0, 0, 0, 0], [0, 0, 0, 0, 0, 0, 0, 0],
];

const NDON: [u8; 100] = [
    0, 0, 0, 0, 0, 0, 0, 0, 0, 0,
    0, 0, 0, 1, 1, 1, 1, 1, 0, 0,
    0, 1, 0, 1, 1, 1, 1, 0, 0, 0,
    0, 1, 0, 1, 1, 1, 1, 0, 1, 0,
    0, 1, 0, 1, 1, 1, 1, 0, 1, 0,
    0, 1, 0, 1, 1, 1, 1, 0, 1, 0,
    0, 1, 0, 0, 0, 0, 0, 0, 1, 0,
    0, 1, 0, 0, 0, 0, 0, 0, 1, 0,
    0, 0, 0, 1, 1, 1, 1, 0, 0, 0,
    0, 0, 0, 0, 0, 0, 0, 0, 0, 0,
];

const STACK: [usize; 100] = [
    0, 1, 2, 3, 4, 5, 6, 7, 8, 9,
    10, 11, 12, 13, 14, 15, 16, 17, 18, 19,
    20, 21, 28, 29, 30, 31, 38, 39, 40, 41,
    48, 49, 50, 51, 58, 59, 60, 61, 68, 69,
    70, 71, 78, 79, 80, 81, 82, 83, 84, 85,
    86, 87, 88, 89, 90, 91, 92, 93, 94, 95,
    96, 97, 98, 99, 23, 24, 25, 26, 27, 22,
    32, 37, 42, 47, 52, 57, 62, 67, 72, 77,
    73, 74, 75, 76, 33, 34, 35, 36, 43, 44,
    45, 46, 53, 54, 55, 56, 63, 64, 65, 66,
];

const LEVELS: [usize; 40] = [
    0, 64, 84, 88, 92, 96, 100, 100, 0, 0,
    0, 0, 0, 0, 0, 0, 0, 0, 0, 0,
    0, 0, 0, 0, 0, 0, 0, 0, 0, 0,
    0, 0, 0, 0, 0, 0, 0, 0, 0, 0,
];

#[test]
fn lib_test_compute_donors() {
    let meta = GridMeta::new(10, 10);
    let mut donor = vec![[0; 8]; meta.size()];
    let mut ndon = vec![0; meta.size()];
    compute_donors(&meta, &REC, &mut ndon, &mut donor);
    assert_eq!(donor, DONOR);
    assert_eq!(ndon, NDON);
}

#[test]
fn lib_test_generate_order() {
    let meta = GridMeta::new(10, 10);
    let mut levels = vec![0; 40];
    let mut nlevels = 0;
    let mut stack = vec![0; meta.size()];
    generate_order(&meta, &REC, &DONOR, &NDON, &mut levels, &mut nlevels, &mut stack);
    assert_eq!(stack, STACK);
    assert_eq!(nlevels, 7);
    assert_eq!(levels, LEVELS);
}

#[test]
fn compute_donors_keeps_unused_slots() {
    // 3x1 grid: the outer cells drain into the middle one
    let meta = GridMeta::new(3, 1);
    let rec = [4, NO_FLOW, 0];
    let mut ndon = vec![7; 3];
    let mut donor = vec![[9; 8]; 3];
    compute_donors(&meta, &rec, &mut ndon, &mut donor);
    assert_eq!(ndon, [0, 2, 0]);
    assert_eq!(donor[1], [0, 2, 9, 9, 9, 9, 9, 9]);
    assert_eq!(donor[0], [9; 8]);
}

#[test]
fn generate_order_without_outlets_writes_one_level() {
    let meta = GridMeta::new(2, 1);
    let rec = [4, 0];
    let donor = [[1, 0, 0, 0, 0, 0, 0, 0], [0, 0, 0, 0, 0, 0, 0, 0]];
    let ndon = [1, 1];
    let mut levels = vec![5; 4];
    let mut nlevels = 9;
    let mut stack = vec![3; 2];
    generate_order(&meta, &rec, &donor, &ndon, &mut levels, &mut nlevels, &mut stack);
    assert_eq!(nlevels, 1);
    assert_eq!(levels, [0, 0, 5, 5]);
    assert_eq!(stack, [3, 3]);
}

#[test]
fn get_new_label_prefers_own_then_lower_neighbour() {
    let meta = GridMeta::new(3, 3);
    let dem = [1, 4, 3, 6, 5, 2, 7, 8, 9];
    // centre unlabelled; left neighbour (dir 0) is higher, top-left (dir 1)
    // is lower and labelled
    let labels = [7, 0, 0, 3, 0, 0, 0, 0, 0];
    let mut current = 10;
    assert_eq!(get_new_label(&meta, 1, 1, &dem, &labels, &mut current), 7);
    assert_eq!(current, 10);
    let own = [0, 0, 0, 0, 4, 0, 0, 0, 0];
    assert_eq!(get_new_label(&meta, 1, 1, &dem, &own, &mut current), 4);
    let none = [0; 9];
    assert_eq!(get_new_label(&meta, 1, 1, &dem, &none, &mut current), 11);
    assert_eq!(current, 11);
}

#[test]
fn initial_fill_fills_the_pit_and_collects_the_skirt() {
    let meta = GridMeta::new(3, 3);
    let mut dem = vec![5, 5, 5, 5, 1, 5, 5, 5, 5];
    let info = TileInfo::new(TileCoord::new(2, 1), meta);
    let (data, labels) = initial_fill(info, &mut dem);
    assert!(dem[4] >= 5);
    assert_eq!(labels.len(), 9);
    assert_eq!(data.tile_info(), &info);
    assert_eq!(data.dem_edges(), meta.edges(&dem).as_slice());
    assert_eq!(data.label_edges(), meta.edges(&labels).as_slice());
    assert!(labels.iter().all(|l| (*l as usize) < data.spill_graph().len()));
}

#[test]
fn mflow_test_multiflow() {
    let mut nrec = [0, 1, 2, 2];
    let donor = [
        [1, 2, 0, 0, 0, 0, 0, 0],
        [2, 3, 0, 0, 0, 0, 0, 0],
        [3, 0, 0, 0, 0, 0, 0, 0],
        [0, 0, 0, 0, 0, 0, 0, 0],
    ];
    let stack = [0, 1, 2, 3];
    let levels = [0, 1, 2, 3, 4];
    let mut s = vec![0; stack.len()];
    let lvls = generate_order_mflow(&GridMeta::new(2, 2), &mut nrec, &donor, &mut s);
    assert_eq!(lvls, levels);
    assert_eq!(s, stack);
    for l in 0..lvls.len() - 1 {
        assert_eq!(s[lvls[l]..lvls[l + 1]], stack[levels[l]..levels[l + 1]]);
    }
}

#[test]
fn mflow_test_multiflow_3() {
    let mut nrec = [0, 1, 1, 2, 4, 3, 2, 4, 3];
    let donor = [
        [1, 3, 4, 0, 0, 0, 0, 0],
        [2, 3, 4, 5, 0, 0, 0, 0],
        [4, 5, 0, 0, 0, 0, 0, 0],
        [4, 6, 7, 0, 0, 0, 0, 0],
        [5, 6, 7, 8, 0, 0, 0, 0],
        [7, 8, 0, 0, 0, 0, 0, 0],
        [7, 0, 0, 0, 0, 0, 0, 0],
        [8, 0, 0, 0, 0, 0, 0, 0],
        [0, 0, 0, 0, 0, 0, 0, 0],
    ];
    let stack = [0, 1, 2, 3, 4, 5, 6, 7, 8];
    let levels = [0, 1, 2, 4, 5, 7, 8, 9];
    let mut s = vec![0; stack.len()];
    let lvls = generate_order_mflow(&GridMeta::new(3, 3), &mut nrec, &donor, &mut s);
    assert_eq!(lvls, levels);
    assert_eq!(s, stack);
    for l in 0..lvls.len() - 1 {
        assert_eq!(s[lvls[l]..lvls[l + 1]], stack[levels[l]..levels[l + 1]]);
    }
}

#[test]
fn mflow_donors_and_order_of_a_centre_cell() {
    // the centre of a 3x3 grid passes flow up-left (1) and up (2)
    let meta = GridMeta::new(3, 3);
    let mut flows = [[false; 8]; 9];
    flows[4][1] = true;
    flows[4][2] = true;
    let mut donor = vec![[0; 8]; 9];
    compute_donors_mflow(&meta, &flows, &mut donor);
    let mut expected = vec![[0; 8]; 9];
    expected[0][5] = 4;
    expected[1][6] = 4;
    assert_eq!(donor, expected);
    let mut nrec = [0, 0, 0, 0, 2, 0, 0, 0, 0];
    let mut stack = [0; 9];
    let levels = generate_order_mflow(&meta, &mut nrec, &donor, &mut stack);
    assert_eq!(stack, [0, 1, 2, 3, 5, 6, 7, 8, 4]);
    assert_eq!(levels, [0, 8, 9]);
    assert_eq!(nrec, [0; 9]);
}

#[test]
fn compute_donors_mflow_keeps_other_slots() {
    let meta = GridMeta::new(2, 1);
    let flows = [[false; 8], [true; 8]];
    let mut donor = vec![[7; 8]; 2];
    compute_donors_mflow(&meta, &flows, &mut donor);
    // cell 0 has cell 1 to its right (4), which passes flow left (0)
    assert_eq!(donor[0], [7, 7, 7, 7, 1, 7, 7, 7]);
    assert_eq!(donor[1], [7; 8]);
}
