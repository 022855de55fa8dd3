use search_bench::dist::range_for;
use search_bench::dist::Shape;
use search_bench::search::contains_target;
use search_bench::sweep::add_duration;
use search_bench::sweep::average_duration;
use search_bench::sweep::draw_for_shape;
use search_bench::sweep::progress_line;
use search_bench::sweep::refill_random;
use search_bench::sweep::run_size;
use search_bench::sweep::worker;
use search_bench::codec::render_sizes_line;

#[test]
fn range_formulas() {
    assert_eq!(range_for(Shape::Normal, 5), (-5, 5));
    assert_eq!(range_for(Shape::Wide, 5), (-50, 50));
    assert_eq!(range_for(Shape::Narrow, 5), (0, 2));
    assert_eq!(range_for(Shape::Normal, 0), (0, 0));
    assert_eq!(range_for(Shape::Wide, 0), (0, 0));
    assert_eq!(range_for(Shape::Narrow, 0), (0, 0));
    assert_eq!(range_for(Shape::Narrow, 1), (0, 0));
}

#[test]
fn shape_labels_and_stems() {
    assert_eq!(Shape::Normal.label(), "[-n;n]");
    assert_eq!(Shape::Wide.label(), "[-10n;10n]");
    assert_eq!(Shape::Narrow.label(), "[0;n/2]");
    assert_eq!(Shape::Normal.file_stem(), "normal");
    assert_eq!(Shape::Wide.file_stem(), "wide");
    assert_eq!(Shape::Narrow.file_stem(), "narrow");
}

#[test]
fn narrow_draws_stay_in_range() {
    let mut rng = rand::thread_rng();
    for _ in 0..200 {
        let v = draw_for_shape(&mut rng, Shape::Narrow, 11);
        assert!(0 <= v && v <= 5);
    }
}

#[test]
fn normal_draws_stay_in_range() {
    let mut rng = rand::thread_rng();
    for _ in 0..200 {
        let v = draw_for_shape(&mut rng, Shape::Normal, 7);
        assert!(-7 <= v && v <= 7);
    }
}

#[test]
fn wide_draws_stay_in_range() {
    let mut rng = rand::thread_rng();
    for _ in 0..200 {
        let v = draw_for_shape(&mut rng, Shape::Wide, 3);
        assert!(-30 <= v && v <= 30);
    }
}

#[test]
fn narrow_at_zero_draws_zero() {
    let mut rng = rand::thread_rng();
    for _ in 0..50 {
        assert_eq!(draw_for_shape(&mut rng, Shape::Narrow, 0), 0);
    }
}

#[test]
fn refill_keeps_length_and_range() {
    let mut rng = rand::thread_rng();
    let mut haystack = vec![0i32; 5];
    refill_random(&mut haystack, &mut rng, 7, 7);
    assert_eq!(haystack, vec![7, 7, 7, 7, 7]);
    refill_random(&mut haystack, &mut rng, -2, 2);
    assert_eq!(haystack.len(), 5);
    assert!(haystack.iter().all(|v| -2 <= *v && *v <= 2));
}

#[test]
fn contains_target_outcomes() {
    assert!(contains_target(&vec![1, 2, 3], 2));
    assert!(!contains_target(&vec![1, 2, 3], 5));
    assert!(!contains_target(&vec![], 0));
}

#[test]
fn duration_accumulation_exact_and_saturating() {
    assert_eq!(add_duration(0, 0), 0);
    assert_eq!(add_duration(1, 2), 3);
    assert_eq!(add_duration(u128::MAX - 1, 1), u128::MAX);
    assert_eq!(add_duration(u128::MAX - 1, 2), u128::MAX);
    assert_eq!(add_duration(u128::MAX, 7), u128::MAX);
}

#[test]
fn average_truncates() {
    assert_eq!(average_duration(0, 5), 0);
    assert_eq!(average_duration(7, 2), 3);
    assert_eq!(average_duration(9999, 1000), 9);
    assert_eq!(average_duration(u128::MAX, 1), u128::MAX);
}

#[test]
fn run_size_hits_bounded() {
    let mut rng = rand::thread_rng();
    let (_avg, hits) = run_size(4, 10, 0, 1, &mut rng);
    assert!(hits <= 10);
}

#[test]
fn sizes_match_progression() {
    let mut rng = rand::thread_rng();
    let (sizes, totals) = worker(0, 10, 3, 1, &mut rng, Shape::Normal);
    assert_eq!(sizes, vec![0, 3, 6, 9]);
    assert_eq!(totals.len(), 4);
}

#[test]
fn sizes_identical_across_shapes() {
    let mut rng = rand::thread_rng();
    let (normal_sizes, _) = worker(0, 20, 10, 1, &mut rng, Shape::Normal);
    let (wide_sizes, _) = worker(0, 20, 10, 1, &mut rng, Shape::Wide);
    let (narrow_sizes, _) = worker(0, 20, 10, 1, &mut rng, Shape::Narrow);
    assert_eq!(normal_sizes, vec![0, 10, 20]);
    assert_eq!(normal_sizes, wide_sizes);
    assert_eq!(normal_sizes, narrow_sizes);
}

#[test]
fn totals_one_per_size_and_nonnegative() {
    let mut rng = rand::thread_rng();
    let (sizes, totals) = worker(0, 2000, 1000, 2, &mut rng, Shape::Wide);
    assert_eq!(sizes, vec![0, 1000, 2000]);
    assert_eq!(totals.len(), sizes.len());
    // u128 averages cannot be negative; check they are recorded at all sizes
    for t in totals {
        assert!(t < u128::MAX);
    }
}

#[test]
fn size_zero_recorded() {
    let mut rng = rand::thread_rng();
    let (sizes, totals) = worker(0, 0, 1, 2, &mut rng, Shape::Narrow);
    assert_eq!(sizes, vec![0]);
    assert_eq!(totals.len(), 1);
}

#[test]
fn end_to_end_small_sweep() {
    let mut rng = rand::thread_rng();
    let (sizes, totals) = worker(0, 3, 1, 1, &mut rng, Shape::Normal);
    assert_eq!(sizes, vec![0, 1, 2, 3]);
    assert_eq!(totals.len(), 4);
    let line = render_sizes_line(&sizes);
    assert_eq!(line.as_str(), "0 1 2 3\n");
}

#[test]
fn repeat_sweep_same_sizes() {
    let mut rng = rand::thread_rng();
    let (first_sizes, first_totals) = worker(5, 11, 2, 1, &mut rng, Shape::Normal);
    let (second_sizes, second_totals) = worker(5, 11, 2, 1, &mut rng, Shape::Normal);
    assert_eq!(first_sizes, vec![5, 7, 9, 11]);
    assert_eq!(first_sizes, second_sizes);
    assert_eq!(first_totals.len(), second_totals.len());
}

#[test]
fn progress_line_format() {
    let s = progress_line(5, 123);
    assert_eq!(s.as_str(), "size = 5, total = 123");
}
