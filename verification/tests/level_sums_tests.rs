use oxscape::level_sums::{do_slow_stuff, do_stuff};

#[test]
fn test_stuff() {
    let mut arr = [0, 1, 2, 3];
    let stack = [0, 2, 1, 3];
    let levels = [0, 2, 4];
    let allowed_indices = [1, 0, 3, 2];
    do_stuff(&mut arr, &levels, &stack, &allowed_indices);
    assert_eq!(arr, [1, 2, 5, 8]);
}

#[test]
fn test_datarace() {
    let mut arr = [0, 1, 2, 3];
    let stack = [0, 2, 1, 3];
    let levels = [0, 2, 4];
    // 0 reads 2, but 2 is in the same level: it is updated after 0 reads it
    let allowed_indices = [2, 0, 3, 2];
    do_stuff(&mut arr, &levels, &stack, &allowed_indices);
    assert_eq!(arr, [2, 3, 5, 8]);
}

#[test]
fn test_slow_stuff() {
    let mut arr = [0, 1, 2, 3];
    let stack = [0, 2, 1, 3];
    let levels = [0, 2, 4];
    let allowed_indices = [1, 0, 3, 2];
    do_slow_stuff(&mut arr, &levels, &stack, &allowed_indices);
    assert_eq!(arr, [1, 2, 5, 8]);
}

#[test]
fn slow_stuff_reads_values_from_before_the_level() {
    // in the first level, 2 is updated before 0 reads it
    let stack = [2, 0, 1, 3];
    let levels = [0, 2, 4];
    let allowed_indices = [2, 0, 3, 2];
    let mut slow = [0, 1, 2, 3];
    do_slow_stuff(&mut slow, &levels, &stack, &allowed_indices);
    assert_eq!(slow, [2, 3, 5, 8]);
    let allowed_indices = allowed_indices.map(|v| v as isize);
    let stack = stack.map(|v| v as isize);
    let mut fast = [0, 1, 2, 3];
    do_stuff(&mut fast, &levels, &stack, &allowed_indices);
    assert_eq!(fast, [5, 6, 5, 8]);
}

#[test]
fn no_levels_change_nothing() {
    let mut arr = [4, 5];
    do_stuff(&mut arr, &[], &[0, 1], &[1, 0]);
    do_slow_stuff(&mut arr, &[1], &[0, 1], &[1, 0]);
    assert_eq!(arr, [4, 5]);
}
