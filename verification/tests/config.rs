use quadtree::config::QuadTreeConfig;

#[test]
fn config_defaults_follow_target_score() {
    let config = QuadTreeConfig::new(1_000);

    assert_eq!(config.max_iter, 1_000);
    assert_eq!(config.max_depth, 32);
    assert_eq!(config.max_leaves, 100_000);
    assert_eq!(config.target_score, 1_000);
    assert_eq!(config.target_window, 3);
    // One hundredth of the target, in hundredths of a score unit.
    assert_eq!(config.no_progress_tolerance, 1_000);
    assert_eq!(config.no_progress_window, 25);
}

#[test]
fn config_tolerance_is_exactly_one_hundredth_of_the_target() {
    // A target of 1 gives a tolerance of 0.01, held as 1 hundredth.
    assert_eq!(QuadTreeConfig::new(1).no_progress_tolerance, 1);
    assert_eq!(QuadTreeConfig::new(-250).no_progress_tolerance, -250);
    assert_eq!(QuadTreeConfig::new(i64::MIN).no_progress_tolerance, i64::MIN);
}

#[test]
fn config_builders_set_one_field_each() {
    let config = QuadTreeConfig::new(100)
        .with_max_iter(5)
        .with_max_depth(8)
        .with_target_window(1)
        .with_max_leaves(1_000)
        .with_no_progress_tolerance(7)
        .with_no_progress_window(4);

    assert_eq!(config.max_iter, 5);
    assert_eq!(config.max_depth, 8);
    assert_eq!(config.target_window, 1);
    assert_eq!(config.max_leaves, 1_000);
    assert_eq!(config.no_progress_tolerance, 7);
    assert_eq!(config.no_progress_window, 4);
    assert_eq!(config.target_score, 100);
}
