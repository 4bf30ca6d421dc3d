use pdf_viewer::{
    add_recent_file, delete_flashcard, find_reading_bookmark, remove_reading_bookmark,
    upsert_reading_bookmark, ApiKeys, FlashCard, ReadingBookmark, RecentFile,
};

fn card(id: &str) -> FlashCard {
    FlashCard {
        id: id.to_string(),
        term: format!("term {}", id),
        definition: "def".to_string(),
        created_at: "2024-01-01 00:00:00 UTC".to_string(),
    }
}

fn file(path: &str) -> RecentFile {
    RecentFile {
        path: path.to_string(),
        name: path.to_string(),
        display_name: path.to_string(),
        last_opened: "then".to_string(),
    }
}

fn bookmark(path: &str, page: usize) -> ReadingBookmark {
    ReadingBookmark {
        pdf_path: path.to_string(),
        current_page: page,
        total_pages: 20,
        last_read_time: "now".to_string(),
    }
}

#[test]
fn deleting_a_card_keeps_the_others_in_order() {
    let cards = vec![card("a"), card("b"), card("a"), card("c")];
    let out = delete_flashcard(cards, "a");
    let ids: Vec<&str> = out.iter().map(|c| c.id.as_str()).collect();
    assert_eq!(ids, vec!["b", "c"]);
    assert_eq!(delete_flashcard(Vec::new(), "a").len(), 0);
}

#[test]
fn opened_file_moves_to_front_and_list_is_capped() {
    let files: Vec<RecentFile> = (0..12).map(|i| file(&format!("/f{}", i))).collect();
    let out = add_recent_file(files, "/f5".to_string(), "five.pdf".to_string(), "now".to_string());
    assert_eq!(out.len(), 10);
    assert_eq!(out[0].path, "/f5");
    assert_eq!(out[0].name, "five.pdf");
    assert_eq!(out[0].display_name, "five.pdf");
    assert_eq!(out[0].last_opened, "now");
    let paths: Vec<&str> = out.iter().map(|f| f.path.as_str()).collect();
    assert_eq!(paths, vec!["/f5", "/f0", "/f1", "/f2", "/f3", "/f4", "/f6", "/f7", "/f8", "/f9"]);
}

#[test]
fn bookmarks_are_found_replaced_and_removed() {
    let list = vec![bookmark("/a", 1), bookmark("/b", 2)];
    assert_eq!(find_reading_bookmark(&list, "/b").map(|b| b.current_page), Some(2));
    assert!(find_reading_bookmark(&list, "/c").is_none());
    let list = upsert_reading_bookmark(list, bookmark("/b", 7));
    assert_eq!(list.len(), 2);
    assert_eq!(list[1].current_page, 7);
    let list = upsert_reading_bookmark(list, bookmark("/c", 3));
    assert_eq!(list.len(), 3);
    let list = remove_reading_bookmark(list, "/a");
    let paths: Vec<&str> = list.iter().map(|b| b.pdf_path.as_str()).collect();
    assert_eq!(paths, vec!["/b", "/c"]);
}

#[test]
fn default_api_keys_are_empty() {
    let k = ApiKeys::default();
    assert!(k.gemini.is_none() && k.chatgpt.is_none() && k.claude.is_none());
}

use pdf_viewer::{
    add_flashcard, add_position_marker, append_detailed_explanation, find_page_rotations,
    find_position_markers, remove_position_marker, upsert_page_rotations, PageRotations, PdfMarkers,
    PositionMarker, RotationAngle, StorageError,
};
use std::collections::HashMap;

#[test]
fn new_card_goes_first_with_a_time_and_term_id() {
    let cards = vec![card("x")];
    let out = add_flashcard(cards, "Hello Big World".to_string(), "greeting".to_string(), "now".to_string(), 1700000000123);
    assert_eq!(out.len(), 2);
    assert_eq!(out[0].id, "1700000000123-hello-big-");
    assert_eq!(out[0].term, "Hello Big World");
    assert_eq!(out[0].definition, "greeting");
    assert_eq!(out[0].created_at, "now");
    assert_eq!(out[1].id, "x");
    let neg = add_flashcard(Vec::new(), "AB".to_string(), "d".to_string(), "t".to_string(), -5);
    assert_eq!(neg[0].id, "-5-ab");
}

#[test]
fn existing_term_is_updated_ignoring_case() {
    let cards = vec![card("a"), card("b")];
    let out = add_flashcard(cards, "TERM B".to_string(), "new".to_string(), "later".to_string(), 1);
    assert_eq!(out.len(), 2);
    assert_eq!(out[1].id, "b");
    assert_eq!(out[1].term, "term b");
    assert_eq!(out[1].definition, "new");
    assert_eq!(out[1].created_at, "later");
    assert_eq!(out[0].definition, "def");
}

#[test]
fn explanation_is_appended_below_a_separator() {
    let out = append_detailed_explanation(vec![card("a"), card("b")], "b", "more", "t2".to_string()).expect("found");
    assert_eq!(out[1].definition, "def\n===========\nmore");
    assert_eq!(out[1].created_at, "t2");
    assert_eq!(out[0].definition, "def");
    let missing = append_detailed_explanation(vec![card("a")], "zz", "more", "t".to_string());
    assert!(matches!(missing, Err(StorageError::CardNotFound)));
}

fn marker(id: &str) -> PositionMarker {
    PositionMarker {
        id: id.to_string(),
        page_index: 1,
        x: 250_000,
        y: 500_000,
        created_at: "t".to_string(),
        note: String::new(),
    }
}

#[test]
fn markers_are_added_listed_and_removed_per_document() {
    let all: Vec<PdfMarkers> = Vec::new();
    let all = add_position_marker(all, "/a.pdf", marker("m1"), "t1".to_string());
    let all = add_position_marker(all, "/b.pdf", marker("m2"), "t2".to_string());
    let all = add_position_marker(all, "/a.pdf", marker("m3"), "t3".to_string());
    assert_eq!(all.len(), 2);
    assert_eq!(all[0].last_modified, "t3");
    let ids: Vec<String> = find_position_markers(&all, "/a.pdf").iter().map(|m| m.id.clone()).collect();
    assert_eq!(ids, vec!["m1", "m3"]);
    assert!(find_position_markers(&all, "/c.pdf").is_empty());
    let all = remove_position_marker(all, "/a.pdf", "m1", "t4".to_string());
    let ids: Vec<String> = find_position_markers(&all, "/a.pdf").iter().map(|m| m.id.clone()).collect();
    assert_eq!(ids, vec!["m3"]);
    assert_eq!(all[0].last_modified, "t4");
    assert_eq!(find_position_markers(&all, "/b.pdf").len(), 1);
}

#[test]
fn rotation_records_are_replaced_per_document() {
    let mut r1 = HashMap::new();
    r1.insert(0usize, RotationAngle::Rotate90);
    let entry = |path: &str, m: HashMap<usize, RotationAngle>| PageRotations {
        pdf_path: path.to_string(),
        rotations: m,
        last_modified: "t".to_string(),
    };
    let all = upsert_page_rotations(Vec::new(), entry("/a", r1.clone()));
    let all = upsert_page_rotations(all, entry("/b", HashMap::new()));
    let mut r2 = HashMap::new();
    r2.insert(3usize, RotationAngle::Rotate180);
    let all = upsert_page_rotations(all, entry("/a", r2.clone()));
    assert_eq!(all.len(), 2);
    assert_eq!(find_page_rotations(&all, "/a"), r2);
    assert!(find_page_rotations(&all, "/zzz").is_empty());
}
