use printhelper::{drop_destination, Bitmap, ImageList, MoveError};

fn blank() -> Bitmap {
    Bitmap { width: 1, height: 1, rgba: vec![0, 0, 0, 0] }
}

fn list_of(paths: &[&str]) -> ImageList {
    let mut list = ImageList::new();
    for p in paths {
        list.append(p.to_string(), blank());
    }
    list
}

fn paths(list: &ImageList) -> Vec<String> {
    list.snapshot_paths()
}

#[test]
fn appends_keep_their_order() {
    let list = list_of(&["/c.png", "/a.png", "/b.png", "/a.png"]);
    assert_eq!(paths(&list), vec!["/c.png", "/a.png", "/b.png", "/a.png"]);
    assert_eq!(list.len(), 4);
}

#[test]
fn move_onto_itself_changes_nothing() {
    let mut list = list_of(&["A", "B", "C"]);
    for i in 0..3 {
        assert_eq!(list.move_entry(i, i), Ok(()));
        assert_eq!(paths(&list), vec!["A", "B", "C"]);
    }
}

#[test]
fn move_first_onto_third_row() {
    let mut list = list_of(&["A", "B", "C", "D"]);
    assert_eq!(list.move_entry(0, 2), Ok(()));
    assert_eq!(paths(&list), vec!["B", "C", "A", "D"]);
}

#[test]
fn move_upward_and_clamped() {
    let mut list = list_of(&["A", "B", "C", "D"]);
    list.move_entry(3, 1).unwrap();
    assert_eq!(paths(&list), vec!["A", "D", "B", "C"]);
    list.move_entry(0, 99).unwrap();
    assert_eq!(paths(&list), vec!["D", "B", "C", "A"]);
}

#[test]
fn move_from_outside_is_refused() {
    let mut list = list_of(&["A", "B"]);
    assert_eq!(list.move_entry(2, 0), Err(MoveError::SourceOutOfRange));
    assert_eq!(paths(&list), vec!["A", "B"]);
    let mut empty = ImageList::new();
    assert_eq!(empty.move_entry(0, 0), Err(MoveError::SourceOutOfRange));
}

#[test]
fn remove_by_identity() {
    let mut list = ImageList::new();
    let _a = list.append("A".to_string(), blank());
    let b = list.append("B".to_string(), blank());
    let _c = list.append("C".to_string(), blank());
    assert!(list.remove(b));
    assert_eq!(paths(&list), vec!["A", "C"]);
    assert!(!list.remove(b));
    assert_eq!(paths(&list), vec!["A", "C"]);
}

#[test]
fn remove_picks_the_entry_not_the_path() {
    let mut list = ImageList::new();
    let first = list.append("/same.png".to_string(), blank());
    let second = list.append("/same.png".to_string(), blank());
    assert_ne!(first, second);
    list.append("/other.png".to_string(), blank());
    assert!(list.remove(second));
    assert_eq!(paths(&list), vec!["/same.png", "/other.png"]);
    assert_eq!(list.entry(0).unwrap().id, first);
    assert!(list.entry(2).is_none());
}

#[test]
fn drop_destination_cases() {
    assert_eq!(drop_destination(Some(1), 4), 1);
    assert_eq!(drop_destination(None, 4), 3);
    assert_eq!(drop_destination(None, 0), 0);
}

#[test]
fn drop_below_last_row_moves_to_end() {
    let mut list = list_of(&["A", "B", "C"]);
    assert_eq!(list.drop_row(0, None), Ok(()));
    assert_eq!(paths(&list), vec!["B", "C", "A"]);
    assert_eq!(list.drop_row(2, Some(0)), Ok(()));
    assert_eq!(paths(&list), vec!["A", "B", "C"]);
    assert_eq!(list.drop_row(5, Some(0)), Err(MoveError::SourceOutOfRange));
}

#[test]
fn decode_completions_one_at_a_time() {
    let mut list = ImageList::new();
    assert!(list.append_decoded("/ok.png".to_string(), Some(blank())).is_some());
    assert!(list.append_decoded("/bad.png".to_string(), None).is_none());
    assert_eq!(paths(&list), vec!["/ok.png"]);
    assert!(list.can_append());
}

#[test]
fn removing_twice_equals_removing_once() {
    let mut list = list_of(&["A", "B", "C"]);
    let b = list.entry(1).unwrap().id;
    assert!(list.remove(b));
    assert!(!list.remove(b));
    assert_eq!(paths(&list), vec!["A", "C"]);
}

#[test]
fn entries_keep_their_own_thumbnails() {
    let mut list = ImageList::new();
    let red = Bitmap { width: 1, height: 1, rgba: vec![255, 0, 0, 255] };
    let wide = Bitmap { width: 2, height: 1, rgba: vec![0, 0, 9, 255, 0, 0, 7, 255] };
    list.append_decoded("/r.png".to_string(), Some(red));
    list.append_decoded("/w.png".to_string(), Some(wide));
    let first = list.entry(0).unwrap();
    assert_eq!(first.path, "/r.png");
    assert_eq!(first.thumbnail.rgba, vec![255, 0, 0, 255]);
    let second = list.entry(1).unwrap();
    assert_eq!((second.thumbnail.width, second.thumbnail.height), (2, 1));
    assert_eq!(second.thumbnail.rgba, vec![0, 0, 9, 255, 0, 0, 7, 255]);
}

#[test]
fn batch_keeps_existing_entries_and_completion_order() {
    let mut list = list_of(&["/old.png"]);
    let old_id = list.entry(0).unwrap().id;
    let failed = list.append_batch(vec![
        ("/late.png".to_string(), Some(blank())),
        ("/bad.png".to_string(), None),
        ("/early.png".to_string(), Some(blank())),
    ]);
    assert_eq!(failed, vec!["/bad.png"]);
    assert_eq!(paths(&list), vec!["/old.png", "/late.png", "/early.png"]);
    assert_eq!(list.entry(0).unwrap().id, old_id);
    assert_ne!(list.entry(1).unwrap().id, old_id);
    assert_ne!(list.entry(1).unwrap().id, list.entry(2).unwrap().id);
}
