//! Paths behave as those of the standard library do.

use mac_file_analyzer::order::Standing;
use mac_file_analyzer::path::PathBuf;

const SAMPLES: [&str; 34] = [
    "", "/", "//", ".", "./", "..", "../", "a", "a/", "/a", "//a", "./a", "a/.", "a/./b", "a//b",
    "a/b", "a/b/", "/a/b", "../a", "a/..", "a.b", "a-b", "a/b.txt", "a/b.TXT", ".hidden",
    ".hidden.txt", "x.tar.gz", "name.", "..x", "a..", "a/b/c", "aa/b", "/root/a b", "/root/ä.Ö",
];

fn standing(a: &str, b: &str) -> Standing {
    PathBuf::from(a).standing(&PathBuf::from(b))
}

#[test]
fn path_order_is_that_of_std() {
    for a in SAMPLES {
        for b in SAMPLES {
            let expected = match std::path::Path::new(a).cmp(std::path::Path::new(b)) {
                std::cmp::Ordering::Less => Standing::Before,
                std::cmp::Ordering::Equal => Standing::Same,
                std::cmp::Ordering::Greater => Standing::Behind,
            };
            assert_eq!(standing(a, b), expected, "{:?} and {:?}", a, b);
            assert_eq!(PathBuf::from(a) == PathBuf::from(b), expected == Standing::Same);
            assert_eq!(PathBuf::from(a).at_most(&PathBuf::from(b)), expected != Standing::Behind);
        }
    }
}

#[test]
fn file_names_are_those_of_std() {
    for a in SAMPLES {
        let ours = PathBuf::from(a).file_name().map(|n| n.to_vec());
        let theirs = std::path::Path::new(a).file_name().map(|n| n.to_str().unwrap().as_bytes().to_vec());
        assert_eq!(ours, theirs, "{:?}", a);
    }
}

#[test]
fn parent_names_are_those_of_std() {
    for a in SAMPLES {
        let ours = PathBuf::from(a).parent_file_name().map(|n| n.to_vec());
        let theirs = std::path::Path::new(a)
            .parent()
            .and_then(|p| p.file_name())
            .map(|n| n.to_str().unwrap().as_bytes().to_vec());
        assert_eq!(ours, theirs, "{:?}", a);
    }
}

#[test]
fn extensions_are_those_of_std() {
    for a in SAMPLES {
        let ours = PathBuf::from(a).extension().map(|n| n.to_vec());
        let theirs = std::path::Path::new(a).extension().map(|n| n.to_str().unwrap().as_bytes().to_vec());
        assert_eq!(ours, theirs, "{:?}", a);
        let lower = PathBuf::from(a).lower_extension();
        let expected = std::path::Path::new(a)
            .extension()
            .and_then(|e| e.to_str())
            .map(|e| e.to_ascii_lowercase());
        assert_eq!(lower, expected, "{:?}", a);
    }
}

#[test]
fn extension_that_is_not_text_has_no_lower_form() {
    let path = PathBuf::from_bytes(vec![b'a', b'.', 0xff]);
    assert_eq!(path.extension(), Some(&[0xffu8][..]));
    assert_eq!(path.lower_extension(), None);
}

#[test]
fn text_paths_read_as_their_text() {
    for a in SAMPLES {
        assert_eq!(PathBuf::from(a).display(), a);
    }
}

#[test]
fn bytes_that_are_not_text_are_shown_with_replacements() {
    let bytes = vec![b'a', 0xff, b'b'];
    assert_eq!(PathBuf::from_bytes(bytes.clone()).display(), "a\u{fffd}b");
    assert_eq!(PathBuf::from_bytes(bytes.clone()).as_bytes(), &bytes);
}

#[test]
fn a_clone_is_the_same_path() {
    let path = PathBuf::from("a//b");
    assert_eq!(path.clone().as_bytes(), path.as_bytes());
    assert!(path.clone() == PathBuf::from("a/b"));
}
