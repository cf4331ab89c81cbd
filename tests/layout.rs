use annot_layout::anchor::{choose_target, constrain_target, pick_weighted, select_target, total_weight};
use annot_layout::geometry::{anchor_interval, screen_x, shift_x, ScreenSpan, View1D, MAX_COORD};
use annot_layout::placement::{first_fit_exec, order_candidates, place_labels};
use annot_layout::range_index::RangeIndex;
use rand::rngs::StdRng;
use rand::SeedableRng;

fn view(start: u64, end: u64) -> View1D {
    View1D { start, end }
}

fn screen(left: i64, right: i64) -> ScreenSpan {
    ScreenSpan { left, right }
}

#[test]
fn windowed_query_clips_and_maps() {
    let index = RangeIndex::new(vec![(150, 250, 0)]);
    let hits = index.query(view(100, 200));
    assert_eq!(hits, vec![(150, 250, 0)]);
    assert_eq!(anchor_interval(view(100, 200), 150, 250, screen(0, 1000)), Some((500, 1000)));
    assert_eq!(anchor_interval(view(100, 200), 150, 250, screen(-50, 50)), Some((0, 50)));
}

#[test]
fn query_leaves_out_ranges_away_from_the_view() {
    let index = RangeIndex::new(vec![(0, 50, 0), (150, 250, 1), (300, 400, 2), (10, 20, 3)]);
    let mut hits = index.query(view(100, 200));
    hits.sort();
    assert_eq!(hits, vec![(150, 250, 1)]);
    let mut hits = index.query(view(0, 1000));
    hits.sort();
    assert_eq!(hits, vec![(0, 50, 0), (10, 20, 3), (150, 250, 1), (300, 400, 2)]);
}

#[test]
fn query_on_empty_index_finds_nothing() {
    let index = RangeIndex::new(Vec::new());
    assert!(index.query(view(0, 10)).is_empty());
}

#[test]
fn touching_range_has_no_anchor_interval() {
    // half-open ranges: [0, 10) and the view [10, 20) share no point
    assert_eq!(anchor_interval(view(10, 20), 0, 10, screen(0, 100)), None);
    assert_eq!(anchor_interval(view(10, 20), 20, 30, screen(0, 100)), None);
    assert_eq!(anchor_interval(view(10, 20), 9, 11, screen(0, 100)), Some((0, 10)));
}

#[test]
fn screen_x_rounds_down() {
    assert_eq!(screen_x(1, view(0, 3), screen(0, 10)), 3);
    assert_eq!(screen_x(2, view(0, 3), screen(0, 10)), 6);
    assert_eq!(screen_x(3, view(0, 3), screen(0, 10)), 10);
    assert_eq!(screen_x(MAX_COORD, view(0, MAX_COORD), screen(i64::MIN, i64::MAX)), i64::MAX);
}

#[test]
fn shift_follows_a_pan() {
    // coordinate 60 sits at x = 60 in [0, 100) and at x = 10 in [50, 150)
    assert_eq!(shift_x(60, view(0, 100), view(50, 150), screen(0, 100)), 10);
    assert_eq!(shift_x(20, view(0, 100), view(50, 150), screen(0, 100)), -30);
}

#[test]
fn shift_follows_a_zoom_rounding_down() {
    assert_eq!(shift_x(21, view(0, 100), view(0, 200), screen(0, 100)), 10);
    assert_eq!(shift_x(-1, view(0, 100), view(0, 200), screen(0, 100)), -1);
    assert_eq!(shift_x(110, view(0, 100), view(0, 200), screen(10, 110)), 60);
}

#[test]
fn shift_saturates() {
    let r = shift_x(i64::MAX, view(0, 1), view(0, MAX_COORD), screen(0, i64::MAX));
    assert!(r <= i64::MAX);
    assert_eq!(shift_x(i64::MIN, view(0, MAX_COORD), view(MAX_COORD - 1, MAX_COORD), screen(0, i64::MAX)), i64::MIN);
}

#[test]
fn continuity_snaps_to_nearest_boundary() {
    assert_eq!(constrain_target(65, &vec![(80, 120)]), 80);
    assert_eq!(choose_target(Some(65), &vec![(80, 120)], 17), 80);
}

#[test]
fn target_inside_a_span_stays() {
    assert_eq!(constrain_target(65, &vec![(0, 10), (50, 80)]), 65);
    assert_eq!(constrain_target(80, &vec![(50, 80)]), 80);
}

#[test]
fn snapping_picks_the_closest_endpoint_first_on_ties() {
    assert_eq!(constrain_target(50, &vec![(0, 40), (55, 70)]), 55);
    assert_eq!(constrain_target(50, &vec![(0, 45), (55, 70)]), 45);
    assert_eq!(constrain_target(200, &vec![(0, 10), (20, 30)]), 30);
}

#[test]
fn weighted_pick_lays_spans_end_to_end() {
    let rs = vec![(0, 10), (20, 110)];
    assert_eq!(total_weight(&rs), 100);
    assert_eq!(pick_weighted(&rs, 0), 0);
    assert_eq!(pick_weighted(&rs, 9), 9);
    assert_eq!(pick_weighted(&rs, 10), 20);
    assert_eq!(pick_weighted(&rs, 15), 25);
    assert_eq!(pick_weighted(&rs, 99), 109);
    assert_eq!(choose_target(None, &rs, 15), 25);
}

#[test]
fn weighted_pick_of_empty_spans_takes_first_start() {
    let rs = vec![(5, 5), (9, 9)];
    assert_eq!(total_weight(&rs), 0);
    assert_eq!(pick_weighted(&rs, 0), 5);
    let mut rng = StdRng::seed_from_u64(3);
    assert_eq!(select_target(None, &rs, &mut rng), 5);
}

#[test]
fn weighted_sampling_converges_to_length_share() {
    let rs = vec![(0, 10), (100, 190)];
    let mut rng = StdRng::seed_from_u64(7);
    let n = 20_000;
    let mut in_long = 0;
    for _ in 0..n {
        let t = select_target(None, &rs, &mut rng);
        assert!((0..10).contains(&t) || (100..190).contains(&t));
        if t >= 100 {
            in_long += 1;
        }
    }
    let frac = in_long as f64 / n as f64;
    assert!((frac - 0.9).abs() < 0.02, "fraction {}", frac);
}

#[test]
fn existing_target_is_not_redrawn() {
    let mut rng = StdRng::seed_from_u64(1);
    for _ in 0..100 {
        assert_eq!(select_target(Some(65), &vec![(80, 120)], &mut rng), 80);
    }
}

#[test]
fn placement_orders_by_target_then_id() {
    let cs = vec![(30, 2, 1), (10, 5, 1), (30, 1, 1), (-4, 9, 1)];
    assert_eq!(order_candidates(&cs), vec![(-4, 9, 1), (10, 5, 1), (30, 1, 1), (30, 2, 1)]);
}

#[test]
fn placement_rejects_overlapping_labels() {
    // extents [-10, 10), [5, 25), [10, 30)
    let cs = vec![(0, 0, 20), (15, 1, 20), (20, 2, 20)];
    assert_eq!(place_labels(&cs), vec![(0, 0), (2, 20)]);
    assert_eq!(first_fit_exec(&vec![(15, 1, 20), (0, 0, 20), (20, 2, 20)]), vec![(1, 15)]);
}

#[test]
fn placement_uses_unit_width_when_unmeasured() {
    let cs = vec![(5, 0, 0), (6, 1, 0), (6, 2, 0)];
    assert_eq!(place_labels(&cs), vec![(0, 5), (1, 6)]);
}

#[test]
fn placement_deterministic() {
    let cs = vec![(40, 3, 30), (10, 1, 30), (25, 2, 30), (70, 4, 10), (75, 5, 10)];
    let a = place_labels(&cs);
    let b = place_labels(&cs);
    assert_eq!(a, b);
    assert_eq!(a, vec![(1, 10), (3, 40), (4, 70)]);
}

#[test]
fn placement_of_nothing_is_empty() {
    assert!(place_labels(&Vec::new()).is_empty());
}

#[test]
fn placement_ignores_input_order() {
    let a = vec![(40, 3, 30), (10, 1, 30), (25, 2, 30), (70, 4, 10), (75, 5, 10)];
    let b = vec![(75, 5, 10), (25, 2, 30), (70, 4, 10), (40, 3, 30), (10, 1, 30)];
    assert_eq!(place_labels(&a), place_labels(&b));
}
