use mobius::nsga::{dominance, non_dominated_sort, Dominance};
use mobius::sorting::order_key;

fn key(x: f64) -> i64 {
    order_key(x.to_bits())
}

fn rows(values: &[&[f64]]) -> Vec<Vec<i64>> {
    values.iter().map(|r| r.iter().map(|x| key(*x)).collect()).collect()
}

#[test]
fn dominance_compares_every_objective() {
    let a = [key(0.9), key(0.5)];
    let b = [key(0.8), key(0.5)];
    let c = [key(0.8), key(0.6)];
    assert_eq!(dominance(&a, &b), Dominance::Left);
    assert_eq!(dominance(&b, &a), Dominance::Right);
    assert_eq!(dominance(&a, &c), Dominance::Neither);
    assert_eq!(dominance(&a, &a), Dominance::Neither);
}

#[test]
fn nan_is_neither_better_nor_worse() {
    let a = [key(f64::NAN), key(0.6)];
    let b = [key(0.5), key(0.5)];
    assert_eq!(dominance(&a, &b), Dominance::Left);
    assert_eq!(dominance(&b, &a), Dominance::Right);
    let z = [key(0.0)];
    let nz = [key(-0.0)];
    assert_eq!(dominance(&z, &nz), Dominance::Neither);
}

#[test]
fn fronts_peel_layer_by_layer() {
    let r = rows(&[&[0.9, 0.5], &[0.8, 0.7], &[0.7, 0.6], &[0.6, 0.9], &[0.5, 0.4], &[0.85, 0.45]]);
    assert_eq!(non_dominated_sort(&r), vec![vec![0, 1, 3], vec![5, 2], vec![4]]);
}

#[test]
fn no_runs_no_fronts() {
    assert_eq!(non_dominated_sort(&[]), Vec::<Vec<usize>>::new());
}

#[test]
fn equal_runs_share_the_first_front() {
    let r = rows(&[&[0.5, 0.5], &[0.5, 0.5], &[0.4, 0.4]]);
    assert_eq!(non_dominated_sort(&r), vec![vec![0, 1], vec![2]]);
}

#[test]
fn a_cycle_through_nan_is_never_placed() {
    let nan = f64::NAN;
    let r = rows(&[&[nan, 1.0, 0.0], &[1.0, 0.0, nan], &[0.0, nan, 1.0], &[5.0, 5.0, 5.0]]);
    assert_eq!(non_dominated_sort(&r), vec![vec![3]]);
}
