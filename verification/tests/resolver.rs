use spg::params::{pair_division, resolve_parameters, PuzzleError};

#[test]
fn given_values_pass_through() {
    let p = resolve_parameters(Some(16), Some((3, 2)), Some(9), Some(11), Some(13)).unwrap();
    assert_eq!(p.division_size, 16);
    assert_eq!(p.division, (3, 2));
    assert_eq!(p.select_limit, 9);
    assert_eq!(p.select_rate, 11);
    assert_eq!(p.swap_rate, 13);
}

#[test]
fn absent_values_fall_in_their_ranges() {
    for _ in 0..32 {
        let p = resolve_parameters(None, None, None, None, None).unwrap();
        assert!((16..=256).contains(&p.division_size));
        let lo = (32 / p.division_size).max(2);
        let hi = (2048 / p.division_size).min(16);
        assert!((lo..=hi).contains(&p.division.0));
        assert!((lo..=hi).contains(&p.division.1));
        assert!((2..=128).contains(&p.select_limit));
        assert!((1..=500).contains(&p.select_rate));
        assert!((1..=500).contains(&p.swap_rate));
    }
}

#[test]
fn derived_division_respects_a_given_size() {
    for _ in 0..16 {
        let p = resolve_parameters(Some(8), None, None, None, None).unwrap();
        assert_eq!(p.division_size, 8);
        assert!((4..=16).contains(&p.division.0), "32 / 8 = 4 is the floor");
        assert!((4..=16).contains(&p.division.1));
    }
}

#[test]
fn zero_tile_side_is_invalid() {
    assert_eq!(
        resolve_parameters(Some(0), None, None, None, None),
        Err(PuzzleError::InvalidParameter)
    );
    assert_eq!(
        resolve_parameters(Some(0), Some((2, 2)), None, None, None),
        Err(PuzzleError::InvalidParameter)
    );
}

#[test]
fn oversized_tile_side_empties_the_range() {
    assert_eq!(
        resolve_parameters(Some(5000), None, None, None, None),
        Err(PuzzleError::InvalidParameter)
    );
    assert_eq!(
        resolve_parameters(Some(1025), None, None, None, None),
        Err(PuzzleError::InvalidParameter)
    );
    assert!(resolve_parameters(Some(1024), None, None, None, None).is_ok());
}

#[test]
fn empty_grid_axis_is_invalid() {
    assert_eq!(
        resolve_parameters(Some(16), Some((0, 4)), None, None, None),
        Err(PuzzleError::InvalidParameter)
    );
    assert_eq!(
        resolve_parameters(None, Some((4, 0)), None, None, None),
        Err(PuzzleError::InvalidParameter)
    );
}

#[test]
fn unrepresentable_pixel_size_is_invalid() {
    assert_eq!(
        resolve_parameters(Some(1 << 20), Some((1 << 13, 2)), None, None, None),
        Err(PuzzleError::InvalidParameter)
    );
}

#[test]
fn lone_width_or_height_counts_as_unspecified() {
    assert_eq!(pair_division(Some(3), None), None);
    assert_eq!(pair_division(None, Some(5)), None);
    assert_eq!(pair_division(None, None), None);
    assert_eq!(pair_division(Some(3), Some(5)), Some((3, 5)));
    // the resolver then fills the pair in
    let p = resolve_parameters(Some(16), pair_division(Some(3), None), None, None, None).unwrap();
    assert!((2..=16).contains(&p.division.0));
    assert!((2..=16).contains(&p.division.1));
}
