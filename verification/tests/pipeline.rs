use thumbnailed::thumbnailer::{
    controller_step, discover, distribute, filter_and_distribute, is_candidate, lane_for,
    narrow_plan, split_entries, worker_step, ControllerAction, ControllerState, DirEntryData,
    DirNode, FsEntry, NarrowTo, PixelKind,
};
use thumbnailed::{
    AppToThumbnailer, LoadData, Progress, StorageSize, ThumbError, ThumbnailerToApp,
};

fn s(x: &str) -> String {
    String::from(x)
}

#[test]
fn classifier_accepts_ordinary_file() {
    assert!(is_candidate(&s("/photos/cat.jpg"), &s("/tmp/thumbs")));
}

#[test]
fn classifier_rejects_target_directory() {
    assert!(!is_candidate(&s("/tmp/thumbs"), &s("/tmp/thumbs")));
}

#[test]
fn classifier_rejects_recycle_bin() {
    assert!(!is_candidate(&s("C:\\$RECYCLE.BIN\\old.jpg"), &s("/tmp/thumbs")));
    assert!(!is_candidate(&s("/mnt/c/$RECYCLE.BIN/x.png"), &s("/tmp/thumbs")));
}

#[test]
fn lane_assignment_is_round_robin() {
    assert_eq!(lane_for(0, 3), 0);
    assert_eq!(lane_for(1, 3), 1);
    assert_eq!(lane_for(2, 3), 2);
    assert_eq!(lane_for(3, 3), 0);
    assert_eq!(lane_for(5, 2), 1);
}

#[test]
fn distribute_round_robins_in_order() {
    let candidates = vec![s("a"), s("b"), s("c"), s("d"), s("e")];
    let lanes = distribute(&candidates, 2);
    assert_eq!(lanes.len(), 2);
    assert_eq!(lanes[0], vec![s("a"), s("c"), s("e")]);
    assert_eq!(lanes[1], vec![s("b"), s("d")]);
}

#[test]
fn distribute_is_fair_within_one() {
    // 7 candidates over 3 lanes: every lane gets floor(7/3) or ceil(7/3).
    let candidates: Vec<String> = (0..7).map(|i| format!("f{i}")).collect();
    let lanes = distribute(&candidates, 3);
    assert_eq!(lanes.len(), 3);
    let mut lens: Vec<usize> = lanes.iter().map(|l| l.len()).collect();
    assert!(lens.iter().all(|&l| l == 2 || l == 3));
    lens.sort();
    assert_eq!(lens, vec![2, 2, 3]);
}

#[test]
fn distribute_single_lane_keeps_everything() {
    let candidates = vec![s("x"), s("y")];
    let lanes = distribute(&candidates, 1);
    assert_eq!(lanes.len(), 1);
    assert_eq!(lanes[0], candidates);
}

#[test]
fn pipeline_yields_exactly_one_result_per_decodable_candidate() {
    // Model run: 6 candidates, of which the ones not named "bad" decode.
    let candidates = vec![s("a"), s("bad1"), s("b"), s("c"), s("bad2"), s("d")];
    let lanes = distribute(&candidates, 2);
    let mut kept: Vec<String> = Vec::new();
    for lane in &lanes {
        for p in lane {
            if !p.starts_with("bad") {
                kept.push(p.clone());
            }
        }
    }
    kept.sort();
    assert_eq!(kept, vec![s("a"), s("b"), s("c"), s("d")]);
}

#[test]
fn distribution_stage_filters_then_round_robins() {
    let target = s("/tmp/thumbs");
    let paths = vec![
        s("/p/a.jpg"),
        s("/tmp/thumbs"),
        s("/p/$RECYCLE.BIN/junk.jpg"),
        s("/p/b.jpg"),
        s("/p/c.jpg"),
    ];
    let lanes = filter_and_distribute(&paths, &target, 2);
    assert_eq!(lanes.len(), 2);
    assert_eq!(lanes[0], vec![s("/p/a.jpg"), s("/p/c.jpg")]);
    assert_eq!(lanes[1], vec![s("/p/b.jpg")]);
}

#[test]
fn worker_step_emits_result_on_success() {
    let original = s("/photos/cat.jpg");
    let msg = worker_step(Ok(s("/tmp/thumbs/cat.jpg.png")), &original);
    match msg {
        Some(ThumbnailerToApp::CreatedThumbnail(p)) => {
            assert_eq!(p.thumbnail, s("/tmp/thumbs/cat.jpg.png"));
            assert_eq!(p.original, original);
        }
        _ => panic!("expected a created-thumbnail message"),
    }
}

#[test]
fn worker_step_skips_failed_item() {
    let msg = worker_step(Err(ThumbError::Decode), &s("/photos/corrupt.jpg"));
    assert!(msg.is_none());
}

#[test]
fn controller_spawns_supervisor_per_order() {
    let order = LoadData::new(s("/photos"), s("/tmp/thumbs"), 2, 128, 128);
    let state = ControllerState::Running { next_order_id: 7 };
    let (state2, action) = controller_step(state, Some(AppToThumbnailer::ThumbnailOrder(order)));
    assert_eq!(state2, ControllerState::Running { next_order_id: 8 });
    match action {
        ControllerAction::SpawnOrder(o, id) => {
            assert_eq!(id, 7);
            assert_eq!(o.path(), &s("/photos"));
            assert_eq!(o.target_path(), &s("/tmp/thumbs"));
            assert_eq!(o.thread_count(), 2);
        }
        ControllerAction::Stop => panic!("expected a spawn action"),
    }
}

#[test]
fn kill_terminates_controller_with_no_order_in_flight() {
    let state = ControllerState::Running { next_order_id: 0 };
    let (state2, action) = controller_step(state, Some(AppToThumbnailer::KillCmd));
    assert_eq!(state2, ControllerState::Terminated);
    assert!(matches!(action, ControllerAction::Stop));
}

#[test]
fn closed_channel_terminates_controller() {
    let state = ControllerState::Running { next_order_id: 3 };
    let (state2, action) = controller_step(state, None);
    assert_eq!(state2, ControllerState::Terminated);
    assert!(matches!(action, ControllerAction::Stop));
}

#[test]
fn zero_worker_count_is_coerced_to_one() {
    let order = LoadData::new(s("/photos"), s("/t"), 0, 64, 64);
    assert_eq!(order.thread_count(), 1);
    let order2 = LoadData::new(s("/photos"), s("/t"), 5, 64, 64);
    assert_eq!(order2.thread_count(), 5);
    assert_eq!(order2.max_x(), 64);
    assert_eq!(order2.max_y(), 64);
}

#[test]
fn split_entries_partitions_a_listing() {
    let entries = vec![
        FsEntry { path: s("/r/sub"), file: false, dir: true },
        FsEntry { path: s("/r/a.jpg"), file: true, dir: false },
        FsEntry { path: s("/r/weird-link"), file: false, dir: false },
        FsEntry { path: s("/r/b.png"), file: true, dir: false },
        FsEntry { path: s("/r/more"), file: false, dir: true },
    ];
    let (dirs, files) = split_entries(entries);
    assert_eq!(dirs, vec![s("/r/sub"), s("/r/more")]);
    assert_eq!(files, vec![s("/r/a.jpg"), s("/r/b.png")]);
}

#[test]
fn discovery_emits_each_file_of_the_tree_once() {
    // root(0) -> sub1(1), sub2(2); sub1 -> deep(3). Breadth-first: the
    // root's own files come first, then each level in queue order.
    let tree = vec![
        DirNode { files: vec![s("/r/top.jpg")], subdirs: vec![1, 2] },
        DirNode { files: vec![s("/r/s1/a.jpg"), s("/r/s1/b.jpg")], subdirs: vec![3] },
        DirNode { files: vec![s("/r/s2/c.jpg")], subdirs: vec![] },
        DirNode { files: vec![s("/r/s1/deep/d.jpg")], subdirs: vec![] },
    ];
    let found = discover(&tree);
    assert_eq!(
        found,
        vec![
            s("/r/top.jpg"),
            s("/r/s1/a.jpg"),
            s("/r/s1/b.jpg"),
            s("/r/s2/c.jpg"),
            s("/r/s1/deep/d.jpg")
        ]
    );
}

#[test]
fn discovery_of_a_leaf_root_emits_its_files() {
    let tree = vec![DirNode { files: vec![s("/r/only.jpg")], subdirs: vec![] }];
    let found = discover(&tree);
    assert_eq!(found, vec![s("/r/only.jpg")]);
}

#[test]
fn entries_report_their_kind() {
    let f = FsEntry { path: s("/r/a.jpg"), file: true, dir: false };
    let d = FsEntry { path: s("/r/sub"), file: false, dir: true };
    assert!(f.is_file() && !f.is_dir());
    assert!(d.is_dir() && !d.is_file());
}

#[test]
fn wide_color_models_are_narrowed_to_eight_bit() {
    assert_eq!(narrow_plan(PixelKind::L16), Some(NarrowTo::Luma8));
    assert_eq!(narrow_plan(PixelKind::La16), Some(NarrowTo::LumaA8));
    assert_eq!(narrow_plan(PixelKind::Rgb16), Some(NarrowTo::Rgb8));
    assert_eq!(narrow_plan(PixelKind::Rgb32F), Some(NarrowTo::Rgb8));
    assert_eq!(narrow_plan(PixelKind::Rgba16), Some(NarrowTo::Rgba8));
    assert_eq!(narrow_plan(PixelKind::Rgba32F), Some(NarrowTo::Rgba8));
    assert_eq!(narrow_plan(PixelKind::L8), None);
    assert_eq!(narrow_plan(PixelKind::Rgb8), None);
    assert_eq!(narrow_plan(PixelKind::Other), None);
}

#[test]
fn progress_caps_at_maximum() {
    let mut p = Progress::new(10usize, 0usize);
    assert!(!p.is_completed());
    p.set_progress_capped(7);
    assert_eq!(p.progression, 7);
    assert!(!p.is_completed());
    p.set_progress_capped(15);
    assert_eq!(p.progression, 10);
    assert!(p.is_completed());
}

#[test]
fn storage_size_holds_bytes() {
    let mut size = StorageSize::new(1500);
    assert_eq!(size.get_bytes(), 1500);
    assert_eq!(size.as_bytes(), 1500);
    *size.get_bytes_mut() = 2000;
    assert_eq!(size.get_bytes(), 2000);
    assert_eq!(StorageSize::default(), StorageSize::new(0));
}

#[test]
fn distribute_of_nothing_gives_empty_lanes() {
    let candidates: Vec<String> = vec![];
    let lanes = distribute(&candidates, 3);
    assert_eq!(lanes.len(), 3);
    assert!(lanes.iter().all(|l| l.is_empty()));
}
