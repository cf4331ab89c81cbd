use annot_layout::geometry::{ScreenSpan, View1D, MAX_COORD};
use annot_layout::dynamics::AnnotSlotDynamics;
use annot_layout::registry::{AnnotSlotId, Annots1D};
use annot_layout::slot::{
    label_nodes, pangenome_range_labels, text_shape, AnnotShape, AnnotSlot, Annotation, PathStep, TaskPoll,
};

fn view(start: u64, end: u64) -> View1D {
    View1D { start, end }
}

fn screen(left: i64, right: i64) -> ScreenSpan {
    ScreenSpan { left, right }
}

fn ann(start: u64, end: u64, label: &str) -> Annotation {
    Annotation { start, end, shape: text_shape(label.to_string()) }
}

#[test]
fn end_to_end_two_labels_both_placed() {
    let mut slot = AnnotSlot::new_from_pangenome_space(vec![ann(0, 10, "A"), ann(20, 30, "B")], 42);
    slot.set_shape_sizes(vec![(0, 20), (1, 20)]);
    let job = slot.update(TaskPoll::Idle, view(0, 30), screen(0, 300)).expect("a job starts");
    assert!(slot.is_in_flight());
    let out = job.run();
    assert!(out.fits(2));
    assert!(slot.update(TaskPoll::Finished(out), view(0, 30), screen(0, 300)).is_none());
    assert!(!slot.is_in_flight());
    let ps = slot.positions().clone();
    assert_eq!(ps.len(), 2);
    assert_eq!(ps[0].0, 0);
    assert!((0..=100).contains(&ps[0].1));
    assert_eq!(ps[1].0, 1);
    assert!((200..=300).contains(&ps[1].1));
    let d = slot.dynamics.as_ref().unwrap();
    assert_eq!(d.visible, vec![0, 1]);
    assert_eq!(d.objs[0].width, Some(20));
    assert_eq!(d.objs[1].width, Some(20));
}

#[test]
fn single_flight_never_starts_a_second_job() {
    let mut slot = AnnotSlot::new_from_pangenome_space(vec![ann(0, 10, "A")], 1);
    let job = slot.update(TaskPoll::Idle, view(0, 10), screen(0, 100));
    assert!(job.is_some());
    assert!(slot.update(TaskPoll::Running, view(0, 10), screen(0, 100)).is_none());
    assert!(slot.update(TaskPoll::Running, view(0, 5), screen(0, 100)).is_none());
    assert!(slot.update(TaskPoll::Idle, view(0, 10), screen(0, 100)).is_none());
    assert!(slot.is_in_flight());
    assert!(slot.positions().is_empty());
    let out = job.unwrap().run();
    assert!(slot.update(TaskPoll::Finished(out), view(0, 10), screen(0, 100)).is_none());
    assert_eq!(slot.positions().len(), 1);
    assert!(slot.update(TaskPoll::Idle, view(0, 10), screen(0, 100)).is_some());
}

#[test]
fn finished_output_without_running_job_is_ignored() {
    let mut slot = AnnotSlot::new_from_pangenome_space(vec![ann(0, 10, "A")], 1);
    let other = AnnotSlot::new_from_pangenome_space(vec![ann(0, 10, "A")], 2);
    let mut other = other;
    let out = other.update(TaskPoll::Idle, view(0, 10), screen(0, 100)).unwrap().run();
    assert!(slot.update(TaskPoll::Finished(out), view(0, 10), screen(0, 100)).is_none());
    assert!(slot.positions().is_empty());
    assert!(!slot.is_in_flight());
}

#[test]
fn continuity_through_layout_step() {
    let mut d = AnnotSlotDynamics::new(1, 0);
    d.objs[0].target = Some(65);
    let out = d.prepare_with_hits(&vec![(80, 120, 0)], view(0, 1000), screen(0, 1000));
    assert_eq!(out, vec![(0, 80)]);
    assert_eq!(d.objs[0].target, Some(80));
    assert_eq!(d.visible, vec![0]);
}

#[test]
fn hidden_annotation_keeps_its_target() {
    let mut d = AnnotSlotDynamics::new(2, 0);
    d.objs[1].target = Some(500);
    let out = d.prepare_with_hits(&vec![(10, 20, 0)], view(0, 100), screen(0, 100));
    assert_eq!(out.len(), 1);
    assert_eq!(out[0].0, 0);
    assert!((10..=20).contains(&out[0].1));
    assert_eq!(d.objs[1].target, Some(500));
    assert_eq!(d.visible, vec![0]);
}

#[test]
fn targets_follow_view_change() {
    let mut d = AnnotSlotDynamics::new(1, 0);
    d.objs[0].target = Some(60);
    let out = d.prepare_with_hits(&vec![(0, 100, 0)], view(0, 100), screen(0, 100));
    assert_eq!(out, vec![(0, 60)]);
    let out = d.prepare_with_hits(&vec![(0, 100, 0)], view(50, 150), screen(0, 100));
    assert_eq!(out, vec![(0, 10)]);
    assert_eq!(d.prev_view, Some(view(0, 100)));
    assert_eq!(d.cur_view, Some(view(50, 150)));
}

#[test]
fn spans_of_one_annotation_are_grouped() {
    let mut d = AnnotSlotDynamics::new(1, 0);
    d.objs[0].target = Some(55);
    let hits = vec![(0, 10, 0), (70, 80, 0)];
    let out = d.prepare_with_hits(&hits, view(0, 100), screen(0, 100));
    assert_eq!(out, vec![(0, 70)]);
}

#[test]
fn every_indexed_id_has_a_label() {
    let anns = vec![ann(0, 10, "a"), ann(5, 5, "empty"), ann(20, 30, "b"), ann(40, 45, "c")];
    let slot = AnnotSlot::new_from_pangenome_space(anns, 9);
    let mut hits = slot.annots.query(view(0, MAX_COORD));
    hits.sort();
    assert_eq!(hits, vec![(0, 10, 0), (20, 30, 2), (40, 45, 3)]);
    for h in hits {
        assert!(slot.label(h.2).is_some());
    }
    assert!(slot.label(4).is_none());
    assert_eq!(slot.label(2).unwrap().shape, AnnotShape::Text("b".to_string()));
}

#[test]
fn malformed_ranges_are_dropped_or_clamped() {
    let anns = vec![ann(10, 5, "reversed"), ann(3, 3, "empty"), ann(0, u64::MAX, "huge")];
    let slot = AnnotSlot::new_from_pangenome_space(anns, 0);
    let hits = slot.annots.query(view(0, MAX_COORD));
    assert_eq!(hits, vec![(0, MAX_COORD as i64, 2)]);
}

#[test]
fn path_space_ranges_split_at_nodes() {
    // the path visits nodes at pangenome [0, 10), [50, 55), [10, 20)
    let steps = vec![
        PathStep { node_start: 0, len: 10 },
        PathStep { node_start: 50, len: 5 },
        PathStep { node_start: 10, len: 10 },
    ];
    let anns = vec![ann(5, 18, "x"), ann(20, 40, "y"), ann(30, 40, "beyond")];
    let slot = AnnotSlot::new_from_path_space(&steps, anns, 0);
    let mut hits = slot.annots.query(view(0, 100));
    hits.sort();
    assert_eq!(hits, vec![(5, 10, 0), (10, 13, 0), (15, 20, 1), (50, 55, 0)]);
    assert_eq!(slot.labels.len(), 3);
}

#[test]
fn empty_view_gives_empty_layout() {
    let mut slot = AnnotSlot::new_from_pangenome_space(vec![ann(0, 10, "A")], 3);
    let out = slot.update(TaskPoll::Idle, view(100, 200), screen(0, 100)).unwrap().run();
    assert!(out.positions.is_empty());
    assert!(out.dynamics.visible.is_empty());
}

#[test]
fn output_fit_checks_ids_and_size() {
    let mut slot = AnnotSlot::new_from_pangenome_space(vec![ann(0, 10, "A")], 3);
    let out = slot.update(TaskPoll::Idle, view(0, 10), screen(0, 100)).unwrap().run();
    assert!(out.fits(1));
    assert!(!out.fits(2));
}

#[test]
fn registry_assigns_ids_in_order() {
    let mut reg = Annots1D::new();
    assert_eq!(reg.get_path_slot_id(7), None);
    let a = reg.insert_slot(7, AnnotSlot::new_from_pangenome_space(vec![ann(0, 10, "A")], 0));
    let b = reg.insert_slot(9, AnnotSlot::new_from_pangenome_space(Vec::new(), 0));
    assert_eq!(a, AnnotSlotId(0));
    assert_eq!(b, AnnotSlotId(1));
    assert_eq!(reg.get_path_slot_id(7), Some(AnnotSlotId(0)));
    assert_eq!(reg.get_path_slot_id(9), Some(AnnotSlotId(1)));
    assert!(reg.get(&a).is_some());
    assert!(reg.get(&AnnotSlotId(2)).is_none());
    let slot = reg.get_mut(&a).unwrap();
    assert!(slot.update(TaskPoll::Idle, view(0, 10), screen(0, 100)).is_some());
    assert!(reg.get(&a).unwrap().is_in_flight());
    assert!(reg.get_mut(&AnnotSlotId(5)).is_none());
}

#[test]
fn range_labels_keep_order() {
    let slot = pangenome_range_labels(vec![(0, 10, "a".to_string()), (30, 40, "b".to_string())], 0);
    assert_eq!(slot.labels.len(), 2);
    assert_eq!(slot.labels[0].start, 0);
    assert_eq!(slot.labels[1].end, 40);
    assert_eq!(slot.labels[1].shape, AnnotShape::Text("b".to_string()));
    let mut hits = slot.annots.query(view(0, 100));
    hits.sort();
    assert_eq!(hits, vec![(0, 10, 0), (30, 40, 1)]);
}

#[test]
fn node_labels_take_node_ranges() {
    let nodes = vec![(0, 4), (4, 9), (9, 20)];
    let slot = label_nodes(&nodes, vec![(2, "n2".to_string()), (0, "n0".to_string())], 0);
    assert_eq!((slot.labels[0].start, slot.labels[0].end), (9, 20));
    assert_eq!((slot.labels[1].start, slot.labels[1].end), (0, 4));
    assert_eq!(slot.labels[0].shape, AnnotShape::Text("n2".to_string()));
}

#[test]
fn same_seed_same_layout() {
    let run = |seed: u64| {
        let mut slot = AnnotSlot::new_from_pangenome_space(vec![ann(0, 1000, "A"), ann(500, 3000, "B")], seed);
        let out = slot.update(TaskPoll::Idle, view(0, 4000), screen(0, 4000)).unwrap().run();
        out.positions
    };
    assert_eq!(run(11), run(11));
}
