use oxscape::array_2d::SkirtedTile;
use oxscape::elev::{
    f32_bits_from_key, f64_bits_from_key, key_from_f32_bits, key_from_f64_bits, NextUp, SIGN64,
};
use oxscape::error::{ErrorStatus, GridError, GridErrorKind};
use oxscape::grid::{Dir, EdgeIterator, GridMeta};

fn collect<T: Copy>(mut it: EdgeIterator<'_, T>) -> Vec<T> {
    let mut out = Vec::new();
    while let Some(v) = it.next() {
        out.push(*v);
    }
    out
}

#[test]
fn lib_test_meta_nshift() {
    let x = 4;
    let meta = GridMeta::new(3, 3);
    let arr = [1, 2, 3, 0, x, 4, 7, 6, 5];
    for i in 0..8 {
        let rec_idx = (4 + meta.nshift()[i]) as usize;
        let rec = arr[rec_idx];
        assert_eq!(rec, i);
    }
}

#[test]
fn lib_test_meta_rev() {
    let x = 4;
    let meta = GridMeta::new(3, 3);
    let arr = [
        1, 2, 3,
        0, x, 4,
        7, 6, 5
    ];
    for n in 0..8 {
        let rec_idx = (4 as isize + meta.nshift()[n]) as usize;
        let rec = arr[rec_idx];
        assert_eq!(rec, n);
        let _x = arr[(rec_idx as isize + meta.nshift()[GridMeta::rev(rec)]) as usize];
        assert_eq!(_x, x);
    }
}

#[test]
fn lib_test_gridmeta_new() {
    let m = GridMeta::new(10, 10);
    assert_eq!(m.width(), 10);
    assert_eq!(m.height(), 10);
    assert_eq!(m.size(), 100);
    assert_eq!(m.nshift(), &[-1, -11, -10, -9, 1, 11, 10, 9]);
}

#[test]
fn lib_test_edge() {
    let arr = vec![
         0, 1, 2, 3,
         4, 5, 6, 7,
         8, 9,10,11,
        12,13,14,15
    ];
    let meta = GridMeta::new(4, 4);
    assert_eq!(collect(meta.edge(&arr, Dir::Left)), &[0,4,8,12]);
    assert_eq!(collect(meta.edge(&arr, Dir::TopLeft)), &[0]);
    assert_eq!(collect(meta.edge(&arr, Dir::Top)), &[0,1,2,3]);
    assert_eq!(collect(meta.edge(&arr, Dir::TopRight)), &[3]);
    assert_eq!(collect(meta.edge(&arr, Dir::Right)), &[3,7,11,15]);
    assert_eq!(collect(meta.edge(&arr, Dir::BotRight)), &[15]);
    assert_eq!(collect(meta.edge(&arr, Dir::Bot)), &[12,13,14,15]);
    assert_eq!(collect(meta.edge(&arr, Dir::BotLeft)), &[12]);
}

#[test]
fn lib_test_skirt() {
    let arr = vec![
         0, 1, 2, 3,
         4, 5, 6, 7,
         8, 9,10,11,
        12,13,14,15
    ];
    let meta = GridMeta::new(4, 4);
    let mut edges = Vec::with_capacity(meta.skirt_size());
    for dir in Dir::iter() {
        for edge_cell in collect(meta.edge(&arr, dir)) {
            edges.push(edge_cell);
        }
    }
    assert_eq!(edges, &[
        0,4,8,12,
        0,
        0,1,2,3,
        3,
        3,7,11,15,
        15,
        12,13,14,15,
        12
    ]);
    assert_eq!(&edges[meta.skirt_range(Dir::Left)], &[0,4,8,12]);
    assert_eq!(&edges[meta.skirt_range(Dir::TopLeft)], &[0]);
    assert_eq!(&edges[meta.skirt_range(Dir::Top)], &[0,1,2,3]);
    assert_eq!(&edges[meta.skirt_range(Dir::TopRight)], &[3]);
    assert_eq!(&edges[meta.skirt_range(Dir::Right)], &[3,7,11,15]);
    assert_eq!(&edges[meta.skirt_range(Dir::BotRight)], &[15]);
    assert_eq!(&edges[meta.skirt_range(Dir::Bot)], &[12,13,14,15]);
    assert_eq!(&edges[meta.skirt_range(Dir::BotLeft)], &[12]);
    // all edges collected in one go give the same
    assert_eq!(meta.edges(&arr), edges);
}

#[test]
fn test_griderror_invalid_direction() {
    let err = GridError::invalid_direction(8);
    assert_eq!(
        err.to_string(),
        "InvalidDirection: Direction 8 is not a valid direction. Directions should be in the range `0..8` (Permanent)"
    );
    assert_eq!(err.status(), ErrorStatus::Permanent);
    assert_eq!(err.kind(), GridErrorKind::InvalidDirection { dir: 8 });
}

#[test]
fn grid_errors_name_their_values() {
    let err = GridError::size_mismatch(3, 4);
    assert_eq!(err.kind(), GridErrorKind::SizeMismatch { found: 3, expected: 4 });
    assert_eq!(err.status(), ErrorStatus::Permanent);
    let err = GridError::out_of_bounds(1, 2, 3);
    assert_eq!(err.kind(), GridErrorKind::OutOfBounds { x: 1, y: 2, dir: 3 });
}

#[test]
fn gridmeta_check_reports_size_mismatch() {
    let meta = GridMeta::new(3, 2);
    assert!(meta.check(&[0u8; 6]).is_ok());
    let err = meta.check(&[0u8; 5]).unwrap_err();
    assert_eq!(err.kind(), GridErrorKind::SizeMismatch { found: 5, expected: 6 });
}

#[test]
fn try_shift_stays_on_the_grid() {
    let meta = GridMeta::new(3, 3);
    // the centre reaches all eight neighbours
    let around: Vec<usize> = (0..8).map(|d| meta.try_shift(1, 1, d).unwrap()).collect();
    assert_eq!(around, vec![3, 0, 1, 2, 5, 8, 7, 6]);
    // the corner only reaches three
    let corner: Vec<Option<usize>> = (0..8).map(|d| meta.try_shift(0, 0, d)).collect();
    assert_eq!(
        corner,
        vec![None, None, None, None, Some(1), Some(4), Some(3), None]
    );
}

#[test]
fn shift_and_rev_walk_back() {
    let meta = GridMeta::new(5, 4);
    let centre = meta.xy_to_i(2, 2);
    for d in 0..8u8 {
        let n = meta.shift(centre, d);
        assert_eq!(meta.shift(n, GridMeta::rev(d as usize) as u8), centre);
    }
    assert_eq!(meta.i_to_xy(13), (3, 2));
    assert!(meta.is_edge(0));
    assert!(!meta.is_edge(centre));
}

#[test]
fn dir_conversions() {
    assert_eq!(Dir::try_from_u8(3).unwrap(), Dir::TopRight);
    assert_eq!(Dir::try_from_usize(7).unwrap(), Dir::BotLeft);
    assert_eq!(
        Dir::try_from_u8(8).unwrap_err().kind(),
        GridErrorKind::InvalidDirection { dir: 8 }
    );
    assert_eq!(Dir::Top.rev(), Dir::Bot);
    assert_eq!(Dir::TopRight.index(), 3);
    assert_eq!(Dir::iter().len(), 8);
    assert_eq!(Dir::BotLeft.name(), "BotLeft");
}

#[test]
fn array_2d_test_edge() {
    let arr = vec![
         0, 1, 2, 3,
         4, 5, 6, 7,
         8, 9,10,11,
        12,13,14,15
    ];
    let meta = GridMeta::new(4, 4);
    let arr2d = SkirtedTile::new(meta, arr, i32::MAX);
    assert_eq!(collect(arr2d.inner_edge(Dir::Left)), &[0,4,8,12]);
    assert_eq!(collect(arr2d.inner_edge(Dir::TopLeft)), &[0]);
    assert_eq!(collect(arr2d.inner_edge(Dir::Top)), &[0,1,2,3]);
    assert_eq!(collect(arr2d.inner_edge(Dir::TopRight)), &[3]);
    assert_eq!(collect(arr2d.inner_edge(Dir::Right)), &[3,7,11,15]);
    assert_eq!(collect(arr2d.inner_edge(Dir::BotRight)), &[15]);
    assert_eq!(collect(arr2d.inner_edge(Dir::Bot)), &[12,13,14,15]);
    assert_eq!(collect(arr2d.inner_edge(Dir::BotLeft)), &[12]);
}

#[test]
fn array_2d_test_skirt() {
    const M: i32 = i32::MAX;
    let mut top_left = SkirtedTile::new(
        GridMeta::new(2, 2),
        vec![
            0, 1,
            4, 5,
    ], M);
    let top_right = SkirtedTile::new(
        GridMeta::new(2, 2),
        vec![
            2, 3,
            6, 7,
    ], M);
    let bot_left = SkirtedTile::new(
        GridMeta::new(2, 2),
        vec![
             8, 9,
            12,13,
    ], M);
    let bot_right = SkirtedTile::new(
        GridMeta::new(2, 2),
        vec![
            10,11,
            14,15,
    ], M);
    assert_eq!(collect(top_left.edge(Dir::Left)), &[M,M]);
    assert_eq!(collect(top_left.edge(Dir::TopLeft)), &[M]);
    assert_eq!(collect(top_left.edge(Dir::Top)), &[M,M]);
    assert_eq!(collect(top_left.edge(Dir::TopRight)), &[M]);
    assert_eq!(collect(top_left.edge(Dir::Right)), &[M,M]);
    assert_eq!(collect(top_left.edge(Dir::BotRight)), &[M]);
    assert_eq!(collect(top_left.edge(Dir::Bot)), &[M,M]);
    assert_eq!(collect(top_left.edge(Dir::BotLeft)), &[M]);

    assert_eq!(collect(top_right.inner_edge(Dir::Left)), &[2,6]);
    top_left.add_edge(top_right.inner_edge(Dir::Left), Dir::Right);
    assert_eq!(collect(bot_right.inner_edge(Dir::TopLeft)), &[10]);
    top_left.add_edge(bot_right.inner_edge(Dir::TopLeft), Dir::BotRight);
    assert_eq!(collect(bot_left.inner_edge(Dir::Top)), &[8,9]);
    top_left.add_edge(bot_left.inner_edge(Dir::Top), Dir::Bot);

    let mut skirt = Vec::new();
    for dir in Dir::iter() {
        skirt.extend(collect(top_left.edge(dir)));
    }
    assert_eq!(skirt, &[M,M, M, M,M, M, 2,6, 10, 8,9, M]);
    let expected = [
        M,M,M,M,
        M,0,1,2,
        M,4,5,6,
        M,8,9,10,
    ];
    let meta = GridMeta::new(4, 4);
    for y in 0..4 {
        for x in 0..4 {
            let res = *top_left.index(x, y);
            assert_eq!(res, expected[meta.xy_to_i(x, y)]);
        }
    }
}

#[test]
fn skirted_tile_set_and_which_edge() {
    let mut t = SkirtedTile::new(GridMeta::new(2, 2), vec![0, 1, 2, 3], -1);
    assert_eq!(t.which_edge(0, 1), Some(Dir::Left));
    assert_eq!(t.which_edge(3, 3), Some(Dir::BotRight));
    assert_eq!(t.which_edge(1, 1), None);
    t.set(3, 2, 42);
    assert_eq!(*t.index(3, 2), 42);
    assert_eq!(collect(t.edge(Dir::Right)), &[-1, 42]);
    t.set(2, 2, 7);
    assert_eq!(*t.index(2, 2), 7);
    assert_eq!(*t.index(1, 1), 0);
    assert_eq!(t.meta().width(), 4);
    assert_eq!(t.meta().height(), 4);
    *t.index_mut(0, 0) = 5;
    *t.index_mut(2, 1) += 10;
    assert_eq!(*t.index(0, 0), 5);
    assert_eq!(*t.index(2, 1), 11);
    assert_eq!(*t.index(1, 1), 0);
}

#[test]
fn keys_order_like_floats() {
    let vals = [
        f64::NEG_INFINITY,
        -1.5,
        -f64::MIN_POSITIVE,
        0.0,
        1e-300,
        2.0,
        f64::MAX,
        f64::INFINITY,
    ];
    for w in vals.windows(2) {
        assert!(key_from_f64_bits(w[0].to_bits()) < key_from_f64_bits(w[1].to_bits()));
    }
    // the two zeros share a key
    assert_eq!(key_from_f64_bits((-0.0f64).to_bits()), SIGN64);
    assert_eq!(key_from_f64_bits(0.0f64.to_bits()), SIGN64);
    for v in vals {
        assert_eq!(f64::from_bits(f64_bits_from_key(key_from_f64_bits(v.to_bits()))), v);
    }
    let v = 3.25f32;
    assert_eq!(f32::from_bits(f32_bits_from_key(key_from_f32_bits(v.to_bits()))), v);
}

#[test]
fn next_up_matches_floats() {
    for v in [
        -2.5f64,
        -f64::MIN_POSITIVE,
        -5e-324,
        0.0,
        -0.0,
        1.0,
        f64::MAX,
        f64::INFINITY,
        f64::NEG_INFINITY,
    ] {
        let k = key_from_f64_bits(v.to_bits());
        let up = f64::from_bits(f64_bits_from_key(k.next_up()));
        assert_eq!(up, v.next_up(), "next_up of {v}");
    }
    let nan = key_from_f64_bits(f64::NAN.to_bits());
    assert_eq!(nan.next_up(), nan);
    for v in [-1.0f32, -1e-45, 0.0, 1.0, f32::MAX] {
        let k = key_from_f32_bits(v.to_bits()) as u32;
        let up = f32::from_bits(f32_bits_from_key(k.next_up() as u64));
        assert_eq!(up, v.next_up(), "next_up of {v}");
    }
}

#[test]
fn error_messages_render_numbers_in_decimal() {
    let err = GridError::size_mismatch(1234567, 0);
    assert!(err.to_string().starts_with("SizeMismatch: Array size 1234567 does not match GridMeta 0,"));
    let err = GridError::out_of_bounds(10, 205, 7);
    assert!(err.to_string().starts_with("OutOfBounds: shift in direction 7 at (10,205) out-of-bounds"));
}
