use thumbnailed::thumbnailer::TimingData;
use thumbnailed::Timings;

fn s(x: &str) -> String {
    String::from(x)
}

#[test]
fn single_time_record_holds_its_fields() {
    let t = TimingData::single_time_from("total time", 1500);
    match t {
        TimingData::SingleTime { name, duration } => {
            assert_eq!(name, s("total time"));
            assert_eq!(duration, 1500);
        }
        _ => panic!("expected a single-time record"),
    }
}

#[test]
fn total_of_which_record_holds_its_fields() {
    let t = TimingData::total_of_which_from("worker 0 total", 1000, "work", 250);
    match t {
        TimingData::TotalWithOfWhich {
            total_name,
            total_duration,
            ofwhich_name,
            ofwhich_duration,
        } => {
            assert_eq!(total_name, s("worker 0 total"));
            assert_eq!(total_duration, 1000);
            assert_eq!(ofwhich_name, s("work"));
            assert_eq!(ofwhich_duration, 250);
        }
        _ => panic!("expected a total/of-which record"),
    }
}

#[test]
fn whole_seconds_render_without_fraction() {
    let t = TimingData::single_time_from("total time", 2_000_000_000);
    assert_eq!(t.to_string(), s("total time took 2s"));
}

#[test]
fn durations_render_like_the_standard_library() {
    assert_eq!(TimingData::single_time_from("a", 999).to_string(), s("a took 999ns"));
    assert_eq!(TimingData::single_time_from("a", 1_500).to_string(), s("a took 1.5\u{b5}s"));
    assert_eq!(TimingData::single_time_from("a", 1_234).to_string(), s("a took 1.234\u{b5}s"));
    assert_eq!(TimingData::single_time_from("a", 1_500_000).to_string(), s("a took 1.5ms"));
    assert_eq!(TimingData::single_time_from("a", 1_050_000_000).to_string(), s("a took 1.05s"));
    assert_eq!(
        TimingData::single_time_from("a", 2_000_000_001).to_string(),
        s("a took 2.000000001s")
    );
}

#[test]
fn total_of_which_renders_with_percent() {
    let t = TimingData::total_of_which_from("worker 0 total", 800, "work", 200);
    assert_eq!(t.to_string(), s("\"worker 0 total\" took 800ns (\"work\" took 200ns [25%])"));
}

#[test]
fn zero_total_renders_zero_percent() {
    let t = TimingData::total_of_which_from("worker 1 total", 0, "work", 0);
    assert_eq!(t.to_string(), s("\"worker 1 total\" took 0ns (\"work\" took 0ns [0%])"));
}

#[test]
fn fresh_timings_are_zero() {
    let t = Timings::new(1000);
    assert_eq!(t.avg_delta, 0);
    assert_eq!(t.max_delta, 0);
    assert_eq!(t.min_delta, 0);
    assert_eq!(t.last_delta, 0);
}

#[test]
fn frame_begin_tracks_deltas_over_the_window() {
    let mut t = Timings::new(1000);

    t.frame_begin(0);
    assert_eq!(t.last_delta, 0);
    assert_eq!(t.avg_delta, 0);
    assert_eq!(t.max_delta, 0);
    assert_eq!(t.min_delta, 0);

    t.frame_begin(100);
    assert_eq!(t.last_delta, 100);
    assert_eq!(t.avg_delta, 50);
    assert_eq!(t.max_delta, 100);
    assert_eq!(t.min_delta, 0);

    // The record from clock 0 is now older than the window and leaves; the
    // newest old record stays even though it is stale too.
    t.frame_begin(2000);
    assert_eq!(t.last_delta, 1900);
    assert_eq!(t.avg_delta, 1000);
    assert_eq!(t.max_delta, 1900);
    assert_eq!(t.min_delta, 100);
}
