use std::path::Path;

use instagrep::paths::components_of;

/// The components of a path, with a space between them.
fn parts(path: &str) -> String {
    let parts = components_of(path.as_bytes()).into_iter();
    parts.map(|part| String::from_utf8(part).unwrap()).collect::<Vec<String>>().join(" ")
}

#[test]
fn a_path_has_components() {
    assert_eq!(parts("a/b.rs"), "a b.rs");
    assert_eq!(parts("a//b/"), "a b");
    assert_eq!(parts("a/./b/."), "a b");
    assert_eq!(parts("./a"), ". a");
    assert_eq!(parts("././a"), ". a");
    assert_eq!(parts("."), ".");
    assert_eq!(parts("/./a"), "/ a");
    assert_eq!(parts("//"), "/");
    assert_eq!(parts("../.a/..b"), ".. .a ..b");
    assert_eq!(parts(""), "");
}

#[test]
fn components_are_those_of_a_path() {
    let pieces = ["", ".", "..", "a", ".b"];
    for x in pieces {
        for y in pieces {
            for z in pieces {
                let (p, q) = (format!("{x}/{y}/{z}"), format!("{y}/{x}//{z}"));
                let same = components_of(p.as_bytes()) == components_of(q.as_bytes());
                assert_eq!(same, Path::new(&p) == Path::new(&q), "{p:?} {q:?}");
                let std: Vec<Vec<u8>> = Path::new(&p)
                    .components()
                    .map(|c| c.as_os_str().to_str().unwrap().as_bytes().to_vec())
                    .collect();
                assert_eq!(components_of(p.as_bytes()), std, "{p:?}");
            }
        }
    }
}
