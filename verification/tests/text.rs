use languatage::text::contains_segment;
use languatage::text::ends_with_extension;
use languatage::text::matches_at;
use languatage::text::names_dot_dir;
use languatage::text::BACKSLASH;
use languatage::text::DOT;
use languatage::text::SEPARATOR;

#[test]
fn the_marks_are_the_bytes_of_their_characters() {
    assert_eq!(SEPARATOR, b'/');
    assert_eq!(BACKSLASH, b'\\');
    assert_eq!(DOT, b'.');
}

#[test]
fn matches_at_compares_at_the_offset() {
    assert!(matches_at(b"hello", b"ell", 1));
    assert!(!matches_at(b"hello", b"ell", 0));
    assert!(!matches_at(b"hello", b"ell", 2));
    assert!(matches_at(b"hello", b"", 5));
    assert!(matches_at(b"hello", b"hello", 0));
    assert!(!matches_at(b"hello", b"hellO", 0));
    assert!(!matches_at(b"hello", b"lo", 4));
    assert!(!matches_at(b"hello", b"", 6));
    assert!(!matches_at(b"", b"a", 0));
    assert!(matches_at(b"", b"", 0));
}

#[test]
fn a_segment_is_bounded_by_separators() {
    assert!(contains_segment(b"./target/a.rs", b"target"));
    assert!(contains_segment(b"/a/target/", b"target"));
    assert!(contains_segment(b"/target/", b"target"));
    assert!(!contains_segment(b"./targets/a.rs", b"target"));
    assert!(!contains_segment(b"./mytarget/a.rs", b"target"));
    assert!(!contains_segment(b"./targetable", b"target"));
    assert!(!contains_segment(b"./target", b"target"));
    assert!(!contains_segment(b"target/a.rs", b"target"));
    assert!(!contains_segment(b".\\target\\a.rs", b"target"));
    assert!(!contains_segment(b"", b"target"));
    assert!(!contains_segment(b"/", b""));
    assert!(contains_segment(b"a//b", b""));
    assert!(contains_segment(b"/a/b/c/d", b"b/c"));
    assert!(contains_segment(b"./x/tar/target/y", b"target"));
}

#[test]
fn an_extension_follows_a_dot_at_the_end() {
    assert!(ends_with_extension(b"a.rs", b"rs"));
    assert!(ends_with_extension(b".rs", b"rs"));
    assert!(ends_with_extension(b"a.", b""));
    assert!(!ends_with_extension(b"a", b""));
    assert!(!ends_with_extension(b"", b""));
    assert!(!ends_with_extension(b"rs", b"rs"));
    assert!(!ends_with_extension(b"ars", b"rs"));
    assert!(!ends_with_extension(b"a.rs", b"Rs"));
    assert!(!ends_with_extension(b"a.rs ", b"rs"));
    assert!(!ends_with_extension(b"a.rs", b"a.rs"));
}

#[test]
fn a_dot_dir_has_a_dotted_last_component() {
    assert!(!names_dot_dir(b"."));
    assert!(names_dot_dir(b".."));
    assert!(names_dot_dir(b".git"));
    assert!(names_dot_dir(b"./.git"));
    assert!(names_dot_dir(b"/home/me/.config"));
    assert!(names_dot_dir(b"C:\\Users\\me\\.config"));
    assert!(names_dot_dir(b"./a/."));
    assert!(!names_dot_dir(b""));
    assert!(!names_dot_dir(b"./"));
    assert!(names_dot_dir(b"./.git/"));
    assert!(names_dot_dir(b".git/"));
    assert!(names_dot_dir(b".git//"));
    assert!(names_dot_dir(b"proj/.cache\\"));
    assert!(names_dot_dir(b"../"));
    assert!(!names_dot_dir(b".//"));
    assert!(!names_dot_dir(b".\\"));
    assert!(!names_dot_dir(b"/"));
    assert!(!names_dot_dir(b"//"));
    assert!(!names_dot_dir(b"./src/"));
    assert!(!names_dot_dir(b"./.git/hooks/"));
    assert!(!names_dot_dir(b"./src"));
    assert!(!names_dot_dir(b"./.git/hooks"));
    assert!(!names_dot_dir(b"./a.b"));
    assert!(!names_dot_dir(b"src"));
}
