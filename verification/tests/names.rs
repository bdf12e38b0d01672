use std::path::Path;
use thumbnailer::names::{has_jpg_extension, select_jpegs};

fn listing(names: &[&str]) -> Vec<Vec<u8>> {
    names.iter().map(|name| name.as_bytes().to_vec()).collect()
}

#[test]
fn a_name_with_the_extension_is_taken() {
    assert!(has_jpg_extension(b"a.jpg"));
    assert!(has_jpg_extension(b"holiday 2019.jpg"));
    assert!(has_jpg_extension(b"a.b.jpg"));
    assert!(has_jpg_extension(b"..jpg"));
    assert!(has_jpg_extension(b".hidden.jpg"));
}

#[test]
fn the_extension_is_matched_exactly() {
    assert!(!has_jpg_extension(b"a.JPG"));
    assert!(!has_jpg_extension(b"a.Jpg"));
    assert!(!has_jpg_extension(b"a.jpeg"));
    assert!(!has_jpg_extension(b"a.jpg "));
    assert!(!has_jpg_extension(b"a.jp"));
    assert!(!has_jpg_extension(b"a.png"));
    assert!(!has_jpg_extension(b"a.jpg.txt"));
    assert!(!has_jpg_extension(b"a.jpg."));
    assert!(!has_jpg_extension(b"ajpg"));
}

#[test]
fn a_name_without_extension_is_passed_over() {
    assert!(!has_jpg_extension(b""));
    assert!(!has_jpg_extension(b"README"));
    assert!(!has_jpg_extension(b"jpg"));
    assert!(!has_jpg_extension(b".jpg"));
    assert!(!has_jpg_extension(b"."));
    assert!(!has_jpg_extension(b"a."));
}

#[test]
fn names_are_judged_as_paths_are() {
    let names = [
        "", "a", ".", "a.", ".a", "a.jpg", ".jpg", "..jpg", "jpg", "a.b.jpg", "a.jpg.b", "a.JPG",
        "a.jpgx", "xjpg", "a..jpg", "a.jpg.jpg", "...", "a.j.p.g", "\u{e9}t\u{e9}.jpg", "a.jp\u{e9}g",
    ];
    for name in names {
        let expected = Path::new(name).extension().and_then(|found| found.to_str()) == Some("jpg");
        assert_eq!(has_jpg_extension(name.as_bytes()), expected, "{:?}", name);
    }
}

#[test]
fn names_that_are_no_text_are_judged_by_their_bytes() {
    assert!(has_jpg_extension(&[0xFF, 0xFE, b'.', b'j', b'p', b'g']));
    assert!(!has_jpg_extension(&[b'a', b'.', b'j', b'p', 0xE7]));
}

#[test]
fn the_places_of_the_photographs_are_picked_in_order() {
    let names = listing(&["b.jpg", "notes.txt", "a.jpg", "README", "c.JPG", ".jpg", "d.jpg"]);
    assert_eq!(select_jpegs(&names), vec![0, 2, 6]);
}

#[test]
fn an_empty_directory_gives_no_work() {
    assert_eq!(select_jpegs(&Vec::new()), Vec::<usize>::new());
}

#[test]
fn a_directory_without_photographs_gives_no_work() {
    let names = listing(&["a.png", "b.jpeg", "c", ".jpg"]);
    assert_eq!(select_jpegs(&names), Vec::<usize>::new());
}

#[test]
fn a_directory_of_photographs_is_picked_whole() {
    let names: Vec<Vec<u8>> = (0..10).map(|i| format!("{}.jpg", i).into_bytes()).collect();
    assert_eq!(select_jpegs(&names), (0..10).collect::<Vec<usize>>());
}

#[test]
fn what_is_picked_has_the_extension_and_is_picked_once() {
    let names = listing(&["x.jpg", "x.jpg.bak", "y.jpg", "z", "y.jpg"]);
    let picked = select_jpegs(&names);
    for pair in picked.windows(2) {
        assert!(pair[0] < pair[1]);
    }
    for at in &picked {
        assert!(names[*at].ends_with(b".jpg"));
    }
    assert_eq!(picked, vec![0, 2, 4]);
}
