use oxscape::error::{ContourErrorKind, ErrorStatus};
use oxscape::grid::{GridMeta, NOT_A_DONOR};
use oxscape::mflow;
use oxscape::sflow::{bottom_up_order, compute_donors, compute_donors_par, forward_order, generate_order, top_down_order, Order, NO_FLOW};

const ND: usize = NOT_A_DONOR;

const REC: [u8; 36] = [
//  0   1   2   3   4   5
    9,  9,  9,  9,  9,  9,// 0
    9,  2,  2,  2,  2,  9,// 1
    9,  2,  2,  2,  2,  9,// 2
    9,  2,  2,  2,  2,  9,// 3
    9,  2,  2,  2,  2,  9,// 4
    9,  9,  9,  9,  9,  9,// 5
];

const DONOR: [[usize; 8]; 36] = [
    [ND;8],[ND,ND,ND,ND,ND,ND, 7,ND], [ND,ND,ND,ND,ND,ND, 8,ND],[ND,ND,ND,ND,ND,ND, 9,ND],[ND,ND,ND,ND,ND,ND,10,ND], [ND;8],
    [ND;8],[ND,ND,ND,ND,ND,ND,13,ND], [ND,ND,ND,ND,ND,ND,14,ND],[ND,ND,ND,ND,ND,ND,15,ND],[ND,ND,ND,ND,ND,ND,16,ND], [ND;8],
    [ND;8],[ND,ND,ND,ND,ND,ND,19,ND], [ND,ND,ND,ND,ND,ND,20,ND],[ND,ND,ND,ND,ND,ND,21,ND],[ND,ND,ND,ND,ND,ND,22,ND], [ND;8],
    [ND;8],[ND,ND,ND,ND,ND,ND,25,ND], [ND,ND,ND,ND,ND,ND,26,ND],[ND,ND,ND,ND,ND,ND,27,ND],[ND,ND,ND,ND,ND,ND,28,ND], [ND;8],
    [ND;8],[ND;8], [ND;8], [ND;8], [ND;8], [ND;8],
    [ND;8],[ND;8], [ND;8], [ND;8], [ND;8], [ND;8]
];

const LEVELS: [usize; 6] = [0, 20, 24, 28, 32, 36];

const STACK: [usize; 36] = [
    0, 1, 2, 3, 4, 5, 6, 11, 12, 17, 18, 23, 24, 29, 30, 31, 32, 33, 34, 35,
    7, 8, 9, 10,
    13, 14, 15, 16,
    19, 20, 21, 22,
    25, 26, 27, 28,
];

#[test]
fn order_test_compute_donors() {
    let meta = GridMeta::new(6, 6);
    let mut donor = vec![[0; 8]; meta.size()];
    compute_donors_par(&meta, &REC, &mut donor);
    assert_eq!(donor, DONOR);
}

#[test]
fn order_test_generate_order() {
    let meta = GridMeta::new(6, 6);
    let mut levels = Vec::with_capacity(meta.width() * 2 + meta.height() * 2);
    let mut stack = Vec::with_capacity(meta.size());
    generate_order(&REC, &DONOR, &mut stack, &mut levels);
    assert_eq!(stack, STACK);
    assert_eq!(levels, LEVELS);
}

#[test]
fn test_compute_donors_loop() {
    let meta = &GridMeta::new(2, 1);
    let rec = [4, 0];
    let mut donors = vec![[0; 8]; 2];
    compute_donors_par(meta, &rec, &mut donors);
    const N: usize = NOT_A_DONOR;
    assert_eq!(donors, [[N, N, N, N, 1, N, N, N], [0, N, N, N, N, N, N, N]]);
}

#[test]
fn test_generate_order_loop() {
    let mut levels = Vec::with_capacity(100);
    let mut stack = Vec::with_capacity(100);
    let rec = [4, 0];
    const N: usize = NOT_A_DONOR;
    let donors = vec![[N, N, N, N, 1, N, N, N], [0, N, N, N, N, N, N, N]];
    generate_order(&rec, &donors, &mut stack, &mut levels);
    assert_eq!(stack, &[]);
    assert_eq!(levels, &[0]);
}

#[test]
fn test_compute_donors_xwrap() {
    let meta = &GridMeta::new(2, 2);
    let rec = [
        NO_FLOW,0,
        0,0,
    ];
    let mut donors = vec![[0;8];4];
    compute_donors(meta, &rec, &mut donors);
    const N: usize = NOT_A_DONOR;
    assert_eq!(donors, [
        [1,N,N,N,N,N,N,N],[2,N,N,N,N,N,N,N],
        [3,N,N,N,N,N,N,N],[N,N,N,N,N,N,N,N]
    ]);
}

#[test]
fn test_generate_order_xwrap() {
    let rec = [
        NO_FLOW,0,
        0,0,
    ];
    const N: usize = NOT_A_DONOR;
    let donors = [
        [1,N,N,N,N,N,N,N],[2,N,N,N,N,N,N,N],
        [3,N,N,N,N,N,N,N],[N,N,N,N,N,N,N,N]
    ];
    let mut levels = Vec::with_capacity(4);
    let mut stack = Vec::with_capacity(4);
    generate_order(&rec, &donors, &mut stack, &mut levels);
    assert_eq!(stack, &[0,1,2,3]);
    assert_eq!(levels, &[0,1,2,3,4]);
}

#[test]
fn test_compute_donors_xwrap_double() {
    let meta = &GridMeta::new(2, 2);
    let rec = [
        NO_FLOW,0,
        0,2,
    ];
    let mut donors = vec![[0;8];4];
    compute_donors(meta, &rec, &mut donors);
    const N: usize = NOT_A_DONOR;
    assert_eq!(donors, [
        [1,N,N,N,N,N,N,N],[2,N,3,N,N,N,N,N],
        [N,N,N,N,N,N,N,N],[N,N,N,N,N,N,N,N]
    ]);
    let mut stack = Vec::new();
    let mut levels = Vec::new();
    generate_order(&rec, &donors, &mut stack, &mut levels);
    assert_eq!(stack, &[0,1,2,3]);
    assert_eq!(levels, &[0,1,2,4]);
}

#[test]
fn donors_of_one_level_lie_in_the_next() {
    // every donor of a level-j cell is in level j + 1
    let mut stack = Vec::new();
    let mut levels = Vec::new();
    generate_order(&REC, &DONOR, &mut stack, &mut levels);
    for j in 0..levels.len() - 1 {
        for &c in &stack[levels[j]..levels[j + 1]] {
            for &d in DONOR[c].iter().filter(|d| **d != NOT_A_DONOR) {
                let pos = stack.iter().position(|s| *s == d).unwrap();
                assert!(levels[j + 1] <= pos && pos < levels[j + 2]);
            }
        }
    }
}

#[test]
fn order_empty_then_reorder() {
    let meta = GridMeta::new(6, 6);
    let mut order = Order::empty(meta);
    assert_eq!(order.receivers(), &[0u8; 36]);
    assert_eq!(order.donors(), &[[0usize; 8]; 36]);
    assert!(order.stack().is_empty());
    assert!(order.levels().is_empty());
    order.reorder_receivers(&REC);
    assert_eq!(order.receivers(), &REC);
    assert_eq!(order.donors(), &DONOR);
    assert_eq!(order.stack(), &STACK);
    assert_eq!(order.levels(), &LEVELS);
    assert_eq!(order.n_levels(), 5);
    assert_eq!(order.meta().size(), 36);
}

#[test]
fn mod_test_multiflow() {
    let mut nrec = [
        0,1,
        2,2,
    ];
    const N: usize = NOT_A_DONOR;
    let donor = [
    //  [0 1 2 3 4 5 6 7]  [0 1 2 3 4 5 6 7]
        [1,2,N,N,N,N,N,N], [2,3,N,N,N,N,N,N],
        [3,N,N,N,N,N,N,N], [N,N,N,N,N,N,N,N],
    ];
    let stack = [
        0,1,2,3
    ];
    let levels = [
        0,1,2,3,4,
    ];
    let mut s = vec![0;stack.len()];
    let mut contours = Vec::with_capacity(5);
    mflow::generate_order(&mut nrec, &donor, &mut s, &mut contours).unwrap();
    assert_eq!(contours, levels);
    assert_eq!(s, stack);
    for l in 0..contours.len()-1 {
        assert_eq!(s[contours[l]..contours[l+1]], stack[levels[l]..levels[l+1]]);
    }
}

#[test]
fn mod_test_multiflow_3() {
    let mut nrec = [
        0,1,1,
        2,4,3,
        2,4,3,
    ];
    const N: usize = NOT_A_DONOR;
    let donor = [
    //  [0 1 2 3 4 5 6 7]  [0 1 2 3 4 5 6 7]  [0 1 2 3 4 5 6 7]
        [1,3,4,N,N,N,N,N], [2,3,4,5,N,N,N,N], [4,5,N,N,N,N,N,N],
        [4,6,7,N,N,N,N,N], [5,6,7,8,N,N,N,N], [7,8,N,N,N,N,N,N],
        [7,N,N,N,N,N,N,N], [8,N,N,N,N,N,N,N], [N,N,N,N,N,N,N,N],
    ];
    let stack = [
        0,1,2,3,4,5,6,7,8
    ];
    let levels = [
        0,1,2,4,5,7,8,9,
    ];
    let mut s = vec![0;stack.len()];
    let mut contours = Vec::with_capacity(8);
    mflow::generate_order(&mut nrec, &donor, &mut s, &mut contours).unwrap();
    assert_eq!(contours, levels);
    assert_eq!(s, stack);
    for l in 0..contours.len()-1 {
        assert_eq!(s[contours[l]..contours[l+1]], stack[levels[l]..levels[l+1]]);
    }
    // every count of receivers was used up
    assert_eq!(nrec, [0; 9]);
}

#[test]
fn multiflow_counts_exhausted() {
    // cell 1 claims one receiver but is noted as donor of two cells
    let mut nrec = [0, 1, 0];
    const N: usize = NOT_A_DONOR;
    let donor = [
        [1, N, N, N, N, N, N, N],
        [N, N, N, N, N, N, N, N],
        [1, N, N, N, N, N, N, N],
    ];
    let mut s = Vec::new();
    let mut contours = Vec::new();
    let err = mflow::generate_order(&mut nrec, &donor, &mut s, &mut contours).unwrap_err();
    assert_eq!(err.kind(), ContourErrorKind::InvalidMetric);
    assert_eq!(err.status(), ErrorStatus::Permanent);
    assert_eq!(err.message(), "metric was invalid: number of receivers exhausted");
}

#[test]
fn multiflow_donors_from_flows() {
    // 2-by-2: cell 1 passes flow left (to 0), cell 3 passes flow up (to 1)
    let meta = GridMeta::new(2, 2);
    let mut flows = [[false; 8]; 4];
    flows[1][0] = true;
    flows[3][2] = true;
    let mut donor = vec![[0usize; 8]; 4];
    mflow::compute_donors(&meta, &flows, &mut donor);
    const N: usize = NOT_A_DONOR;
    assert_eq!(
        donor,
        [
            [N, N, N, N, 1, N, N, N],
            [N, N, N, N, N, N, 3, N],
            [N; 8],
            [N; 8],
        ]
    );
    let mut nrec = [0u8, 1, 0, 1];
    let mut s = Vec::new();
    let mut contours = Vec::new();
    mflow::generate_order(&mut nrec, &donor, &mut s, &mut contours).unwrap();
    assert_eq!(s, [0, 2, 1, 3]);
    assert_eq!(contours, [0, 2, 3, 4]);
}

/// Orders a 4x4 grid where every cell passes flow in every direction it
/// can, with the given receiver counts, and checks that no cell of a level
/// passes flow to, or takes flow from, a cell of the same level.
fn check_contour_invariant(nrec: &[u8]) {
    let meta = GridMeta::new(4, 4);
    let flows = vec![[true; 8]; 16];
    let mut donor = vec![[0; 8]; 16];
    mflow::compute_donors(&meta, &flows, &mut donor);
    let mut counts = nrec.to_vec();
    let mut stack = Vec::new();
    let mut levels = Vec::new();
    if mflow::generate_order(&mut counts, &donor, &mut stack, &mut levels).is_err() {
        return;
    }
    for w in levels.windows(2) {
        let level = &stack[w[0]..w[1]];
        let mut seen = std::collections::HashSet::new();
        for idx in level {
            assert!(seen.insert(*idx));
        }
        for idx in level {
            let (x, y) = meta.i_to_xy(*idx);
            for dir in 0..8 {
                if let Some(n) = meta.try_shift(x, y, dir) {
                    assert!(!seen.contains(&n));
                }
                let d = donor[*idx][dir as usize];
                if d != NOT_A_DONOR {
                    assert!(!seen.contains(&d));
                }
            }
        }
    }
}

#[test]
fn test_order_invariant_mflow() {
    check_contour_invariant(&[0; 16]);
}

#[test]
fn test_33f13c4676537ead5ae05891139ff4575c14d5f5f64631bb2cc8c5b1d2e85f1b() {
    check_contour_invariant(&[0, 2, 1, 1, 2, 2, 1, 1, 1, 1, 1, 1, 1, 1, 1, 1]);
}

#[test]
fn level_walks_visit_levels_in_order() {
    // three levels: [4, 2], [0], [1, 3]; cells 4 and 3 pass no flow
    let stack = [4, 2, 0, 1, 3];
    let levels = [0, 2, 3, 5];
    let rec = [0u8, 0, 0, 9, 9];
    assert_eq!(bottom_up_order(&stack, &levels, &rec), vec![2, 0, 1]);
    assert_eq!(top_down_order(&stack, &levels), vec![1, 3, 0, 4, 2]);
}

#[test]
fn forward_walk_visits_every_level_in_order() {
    let stack = [4, 2, 0, 1, 3];
    let levels = [0, 2, 3, 5];
    assert_eq!(forward_order(&stack, &levels), vec![4, 2, 0, 1, 3]);
    assert_eq!(forward_order(&stack, &[1, 3]), vec![2, 0]);
}
