use std::path::Path;

use tau::path::{file_name_of, join, parent_of, same_path, split_extension};

/// All texts of up to seven characters of a small alphabet that has every
/// character with a meaning.
fn paths() -> Vec<String> {
    let alphabet = ['/', '.', 'a'];
    let mut all = vec![String::new()];
    let mut last = all.clone();
    for _ in 0..7 {
        let mut next = Vec::new();
        for p in &last {
            for c in alphabet {
                let mut q = p.clone();
                q.push(c);
                next.push(q);
            }
        }
        all.extend(next.iter().cloned());
        last = next;
    }
    all
}

#[test]
fn parents_and_names_agree_with_the_standard_library() {
    for p in paths() {
        let expected = Path::new(&p).parent().map(|d| d.to_str().unwrap().to_owned());
        assert_eq!(parent_of(&p), expected, "parent of {p:?}");
        let expected = Path::new(&p).file_name().map(|n| n.to_str().unwrap().to_owned());
        assert_eq!(file_name_of(&p), expected, "name of {p:?}");
    }
}

#[test]
fn joining_agrees_with_the_standard_library() {
    let some: Vec<String> = paths().into_iter().filter(|p| p.len() <= 4).collect();
    for a in &some {
        for b in &some {
            let expected = Path::new(a).join(b).to_str().unwrap().to_owned();
            assert_eq!(join(a, b), expected, "{a:?} and {b:?}");
            assert_eq!(same_path(a, b), Path::new(a) == Path::new(b), "{a:?} and {b:?}");
        }
    }
}

#[test]
fn extensions_agree_with_the_standard_library() {
    for p in paths() {
        if p.is_empty() || p.contains('/') || p == "." || p == ".." {
            continue;
        }
        let (stem, extension) = split_extension(&p);
        let path = Path::new(&p);
        assert_eq!(Some(stem.as_str()), path.file_stem().map(|s| s.to_str().unwrap()));
        assert_eq!(extension.as_deref(), path.extension().map(|s| s.to_str().unwrap()));
    }
}
