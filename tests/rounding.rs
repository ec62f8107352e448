use number_diff::rounding::Round;

#[test]
fn sig_figs() {
    assert_eq!(14912387964_u128.with_significant_figures(5), 14912000000);

    assert_eq!(-4095_i32.with_significant_figures(1), -4000);
}

#[test]
fn sig_figs_store_and_round_half_up() {
    let mut n: u64 = 1250;
    assert_eq!(n.with_significant_figures(2), 1300);
    assert_eq!(n, 1300);
    let mut m: i64 = 1249;
    assert_eq!(m.with_significant_figures(2), 1200);
    assert_eq!(m, 1200);
    assert_eq!(7_u64.with_significant_figures(1), 7);
    assert_eq!(999_u64.with_significant_figures(1), 1000);
}
