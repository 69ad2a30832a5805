use bookedblocks::splat::{cell_span, fill_1d, fill_2d, influence_1d, SplatFill};

#[test]
fn fill_of_an_empty_source_is_zeros() {
    assert_eq!(fill_1d((0, 1), 0), SplatFill::Zeros);
    assert_eq!(fill_1d((0, 0), 0), SplatFill::Zeros);
    assert_eq!(fill_2d(((0, 1), (0, 1)), 0), SplatFill::Zeros);
}

#[test]
fn fill_of_a_compact_range_is_ones() {
    assert_eq!(fill_1d((0, 0), 2), SplatFill::Ones);
    assert_eq!(fill_2d(((0, 0), (0, 1)), 1), SplatFill::Ones);
    assert_eq!(fill_2d(((0, 1), (1, 1)), 1), SplatFill::Ones);
}

#[test]
fn fill_of_samples_on_a_range_is_the_density() {
    assert_eq!(fill_1d((0, 1), 3), SplatFill::Density);
    assert_eq!(fill_1d((1, 0), 1), SplatFill::Density);
    assert_eq!(fill_2d(((0, 1), (-1, 0)), 4), SplatFill::Density);
}

#[test]
fn kernel_of_few_samples_covers_the_grid() {
    // cell 5, reach round(50 / 10) = 5
    assert_eq!(influence_1d(5, (0, 10), 10, 5), (0, 10));
}

#[test]
fn kernel_reach_rounds_halves_up() {
    // cell 5, reach round(50 / 100) = 1
    assert_eq!(influence_1d(5, (0, 10), 10, 50), (4, 7));
    // cell round(30 / 20) = 2, reach round(50 / 50) = 1
    assert_eq!(influence_1d(3, (0, 20), 10, 25), (1, 4));
    // reach round(50 / 200) = 0
    assert_eq!(influence_1d(3, (0, 20), 10, 100), (2, 3));
}

#[test]
fn span_of_a_sample_below_the_range() {
    // cell round(-1.5) = -2
    assert_eq!(cell_span(-3, (0, 20), 10, 1), (0, 0));
    assert_eq!(cell_span(-3, (0, 20), 10, 3), (0, 2));
}

#[test]
fn span_of_a_sample_above_the_range() {
    assert_eq!(cell_span(1000, (0, 10), 10, 5), (10, 10));
    assert_eq!(cell_span(12, (0, 10), 10, 3), (9, 10));
}

#[test]
fn span_on_a_reversed_range() {
    // cell round((20 - 3) * 10 / 20) = round(8.5) = 9
    assert_eq!(cell_span(3, (20, 0), 10, 0), (9, 10));
}

#[test]
fn span_at_the_extremes() {
    assert_eq!(cell_span(i64::MAX, (i64::MIN, i64::MAX), usize::MAX, 0), (usize::MAX, usize::MAX));
    assert_eq!(cell_span(i64::MIN, (i64::MIN, i64::MAX), usize::MAX, u128::MAX), (0, usize::MAX));
    assert_eq!(cell_span(0, (0, 1), 0, 7), (0, 0));
}
