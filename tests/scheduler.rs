use std::collections::HashMap;

use pdf_viewer::{
    load_plan, Batch, Completion, LoadAction, LoadScheduler, PageCache, PageJob, PdfPageData,
    RotationAngle,
};

fn page(index: usize, rotation: RotationAngle) -> PdfPageData {
    PdfPageData {
        image_data: format!("data:image/png;base64,page{}", index),
        text_elements: Vec::new(),
        page_width: 612,
        page_height: 792,
        page_index: index,
        rotation,
    }
}

fn indices(pages: &[(usize, PdfPageData)]) -> Vec<usize> {
    pages.iter().map(|(i, _)| *i).collect()
}

fn next_jobs(s: &mut LoadScheduler) -> Option<(u64, Vec<PageJob>)> {
    match s.next_action() {
        LoadAction::Render { epoch, jobs } => Some((epoch, jobs)),
        LoadAction::Done => None,
    }
}

/// Renders every handed-out job until the scheduler is done; returns the
/// page indices of each batch.
fn drain(s: &mut LoadScheduler) -> Vec<Vec<usize>> {
    let mut batches = Vec::new();
    while let Some((epoch, jobs)) = next_jobs(s) {
        for job in &jobs {
            let r = s.complete(epoch, job.page_index, page(job.page_index, job.rotation));
            assert_eq!(r, Completion::Stored);
        }
        batches.push(jobs.iter().map(|j| j.page_index).collect());
    }
    batches
}

#[test]
fn ten_pages_with_four_workers_load_three_then_batches() {
    assert_eq!(
        load_plan(10, 4),
        vec![
            Batch { start: 0, end: 1 },
            Batch { start: 1, end: 2 },
            Batch { start: 2, end: 3 },
            Batch { start: 3, end: 7 },
            Batch { start: 7, end: 10 },
        ]
    );
    let mut s = LoadScheduler::new();
    s.open_document(1, 10, &HashMap::new(), 4);
    assert!(s.is_loading());
    let mut seen = Vec::new();
    for expected in [vec![0], vec![1], vec![2]] {
        let (epoch, jobs) = next_jobs(&mut s).expect("a priority page");
        let idx: Vec<usize> = jobs.iter().map(|j| j.page_index).collect();
        assert_eq!(idx, expected);
        for job in jobs {
            assert_eq!(s.complete(epoch, job.page_index, page(job.page_index, job.rotation)), Completion::Stored);
        }
        seen.extend(expected);
        assert_eq!(indices(&s.rendered_pages()), seen);
    }
    assert_eq!(drain(&mut s), vec![vec![3, 4, 5, 6], vec![7, 8, 9]]);
    assert!(!s.is_loading());
    let pages = s.rendered_pages();
    assert_eq!(indices(&pages), (0..10).collect::<Vec<_>>());
    for (i, p) in &pages {
        assert_eq!(p.page_index, *i);
    }
}

#[test]
fn plan_sizes_follow_the_parallelism_cap() {
    assert_eq!(load_plan(0, 4), Vec::<Batch>::new());
    assert_eq!(load_plan(2, 4), vec![Batch { start: 0, end: 1 }, Batch { start: 1, end: 2 }]);
    assert_eq!(load_plan(13, 32)[3..], [Batch { start: 3, end: 11 }, Batch { start: 11, end: 13 }]);
    assert_eq!(load_plan(5, 0)[3..], [Batch { start: 3, end: 4 }, Batch { start: 4, end: 5 }]);
}

#[test]
fn rotating_page_three_invalidates_only_that_page() {
    let mut s = LoadScheduler::new();
    s.open_document(1, 10, &HashMap::new(), 4);
    drain(&mut s);
    let before = s.rendered_pages();
    let (epoch, job) = s.rotate_page(3).expect("page 3 exists");
    assert_eq!(job, PageJob { page_index: 3, rotation: RotationAngle::Rotate90 });
    assert!(!s.is_cached(3));
    let after = s.rendered_pages();
    assert_eq!(indices(&after), vec![0, 1, 2, 4, 5, 6, 7, 8, 9]);
    for (i, p) in &after {
        let old = &before.iter().find(|(j, _)| j == i).unwrap().1;
        assert_eq!(p.image_data, old.image_data);
        assert_eq!(p.rotation, RotationAngle::Rotate0);
    }
    assert_eq!(s.complete(epoch, 3, page(3, RotationAngle::Rotate0)), Completion::Superseded);
    assert!(!s.is_cached(3));
    assert_eq!(s.complete(epoch, 3, page(3, RotationAngle::Rotate90)), Completion::Stored);
    assert_eq!(s.rotation_of(3), Some(RotationAngle::Rotate90));
    assert_eq!(indices(&s.rendered_pages()), (0..10).collect::<Vec<_>>());
    assert!(s.rotate_page(10).is_none());
}

#[test]
fn switching_documents_discards_old_completions() {
    let mut s = LoadScheduler::new();
    s.open_document(1, 10, &HashMap::new(), 4);
    for _ in 0..3 {
        let (epoch, jobs) = next_jobs(&mut s).unwrap();
        for job in jobs {
            s.complete(epoch, job.page_index, page(job.page_index, job.rotation));
        }
    }
    let (old_epoch, batch) = next_jobs(&mut s).unwrap();
    assert_eq!(batch.len(), 4);
    s.open_document(2, 5, &HashMap::new(), 4);
    assert_ne!(s.epoch(), old_epoch);
    assert!(s.rendered_pages().is_empty());
    for job in batch {
        assert_eq!(s.complete(old_epoch, job.page_index, page(job.page_index, job.rotation)), Completion::Stale);
    }
    assert!(s.rendered_pages().is_empty());
    assert_eq!(drain(&mut s), vec![vec![0], vec![1], vec![2], vec![3, 4]]);
    assert_eq!(s.document(), Some(2));
    assert_eq!(s.total_pages(), 5);
}

#[test]
fn reopening_the_same_document_is_a_no_op() {
    let mut s = LoadScheduler::new();
    s.open_document(7, 4, &HashMap::new(), 2);
    drain(&mut s);
    let epoch = s.epoch();
    s.open_document(7, 4, &HashMap::new(), 2);
    assert_eq!(s.epoch(), epoch);
    assert!(!s.is_loading());
    assert_eq!(s.rendered_pages().len(), 4);
}

#[test]
fn stored_rotations_are_used_and_rotate_all_restarts() {
    let mut rotations = HashMap::new();
    rotations.insert(1usize, RotationAngle::Rotate180);
    rotations.insert(9usize, RotationAngle::Rotate90);
    let mut s = LoadScheduler::new();
    s.open_document(3, 3, &rotations, 4);
    assert_eq!(s.rotation_of(0), Some(RotationAngle::Rotate0));
    assert_eq!(s.rotation_of(1), Some(RotationAngle::Rotate180));
    assert_eq!(s.rotation_of(3), None);
    drain(&mut s);
    let epoch = s.epoch();
    s.rotate_all();
    assert_ne!(s.epoch(), epoch);
    assert!(s.rendered_pages().is_empty());
    assert_eq!(s.rotation_of(1), Some(RotationAngle::Rotate270));
    assert_eq!(s.rotation_of(2), Some(RotationAngle::Rotate90));
    assert_eq!(s.complete(epoch, 0, page(0, RotationAngle::Rotate0)), Completion::Stale);
    assert_eq!(drain(&mut s), vec![vec![0], vec![1], vec![2]]);
    s.close_document();
    assert_eq!(s.document(), None);
    assert!(s.rendered_pages().is_empty());
    assert!(matches!(s.next_action(), LoadAction::Done));
}

#[test]
fn mismatched_result_is_rejected_as_contaminated() {
    let mut s = LoadScheduler::new();
    s.open_document(1, 4, &HashMap::new(), 4);
    let (epoch, _) = next_jobs(&mut s).unwrap();
    assert_eq!(s.complete(epoch, 0, page(1, RotationAngle::Rotate0)), Completion::Contaminated);
    assert!(s.rendered_pages().is_empty());
}

#[test]
fn cache_rejects_a_result_under_another_index() {
    let mut c = PageCache::new();
    assert!(c.insert(2, page(2, RotationAngle::Rotate0)));
    assert!(!c.insert(3, page(4, RotationAngle::Rotate0)));
    assert!(!c.contains(3));
    assert!(!c.contains(4));
    assert_eq!(indices(&c.get_projection(10)), vec![2]);
    assert!(c.insert(0, page(0, RotationAngle::Rotate0)));
    assert_eq!(indices(&c.get_projection(10)), vec![0, 2]);
    assert_eq!(indices(&c.get_projection(1)), vec![0]);
    c.invalidate(0);
    assert_eq!(indices(&c.get_projection(10)), vec![2]);
    c.clear();
    assert!(c.get_projection(10).is_empty());
}
