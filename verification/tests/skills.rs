use tau::skills::{
    load_skill_from_content, load_skills_from_dir, load_skills_from_dirs, parse_frontmatter,
    strip_frontmatter, validate_name, Child, DiagnosticKind, Discovery, FileKind, SkillFile,
};

fn fields(content: &str) -> Vec<(String, String)> {
    let (map, _) = parse_frontmatter(content);
    (0..map.len())
        .map(|i| {
            let (k, v) = map.entry(i);
            (k.to_owned(), v.clone())
        })
        .collect()
}

fn pair(k: &str, v: &str) -> (String, String) {
    (k.to_owned(), v.to_owned())
}

#[test]
fn frontmatter_is_read_line_by_line() {
    let content = "---\nname: x\n# comment\n\ndescription: \"a: b\"\nquoted: 'q'\nopen: \"q\n: none\nno colon\n---\nbody\n";
    assert_eq!(
        fields(content),
        vec![
            pair("description", "a: b"),
            pair("name", "x"),
            pair("open", "\"q"),
            pair("quoted", "q"),
        ]
    );
    assert_eq!(strip_frontmatter(content), "body\n");
}

#[test]
fn later_fields_replace_earlier_ones() {
    assert_eq!(fields("---\na: 1\na: 2\n---\n"), vec![pair("a", "2")]);
}

#[test]
fn fences_may_have_carriage_returns_and_space() {
    let content = "\u{feff}---\r\na: 1\r\n  ---  \r\nbody";
    assert_eq!(fields(content), vec![pair("a", "1")]);
    assert_eq!(strip_frontmatter(content), "body");
    assert_eq!(strip_frontmatter("---\n---"), "");
}

#[test]
fn text_without_a_frontmatter_is_body() {
    for content in ["", "body", "--- \na: 1\n---\n", "---\na: 1\n", "---", "\n---\n---\n"] {
        assert_eq!(fields(content), Vec::new());
        assert_eq!(strip_frontmatter(content), content);
    }
    for content in ["\u{feff}hello", "\u{feff}", "\u{feff}---\na: 1\n"] {
        let (map, body) = parse_frontmatter(content);
        assert_eq!(map.len(), 0);
        assert_eq!(body, content);
    }
    assert_eq!(fields("\u{feff}---\na: 1\n---\nbody"), vec![pair("a", "1")]);
    assert_eq!(strip_frontmatter("\u{feff}---\na: 1\n---\nbody"), "body");
}

#[test]
fn the_body_is_how_the_text_ends() {
    for content in ["---\nname: a\n---\n\n  body\n---\nmore\n", "\u{feff}---\n---\nx", "plain"] {
        assert!(content.ends_with(&strip_frontmatter(content)));
    }
    assert_eq!(strip_frontmatter("---\nname: a\n---\n\n  body\n---\nmore\n"), "\n  body\n---\nmore\n");
}

fn complaints(name: &str) -> Vec<String> {
    let r = validate_name(name, Some(name), "/s/SKILL.md");
    assert_eq!(r.skip, !r.diagnostics.is_empty());
    r.diagnostics.into_iter().map(|d| d.message).collect()
}

#[test]
fn names_are_checked() {
    assert_eq!(complaints("my-skill-2"), Vec::<String>::new());
    assert_eq!(
        complaints(""),
        vec!["name is empty (no `name:` field and no usable parent directory name)"]
    );
    let invalid = "name contains invalid characters (must be lowercase a-z, 0-9, hyphens only)";
    assert_eq!(complaints("My"), vec![invalid]);
    assert_eq!(complaints("ä"), vec![invalid]);
    assert_eq!(complaints("-a"), vec!["name must not start or end with a hyphen"]);
    assert_eq!(complaints("a-"), vec!["name must not start or end with a hyphen"]);
    assert_eq!(complaints("a--b"), vec!["name must not contain consecutive hyphens"]);
    assert_eq!(complaints(&"a".repeat(64)), Vec::<String>::new());
    assert_eq!(complaints(&"a".repeat(65)), vec!["name exceeds 64 characters (65)"]);
}

#[test]
fn another_name_than_the_directory_is_only_noted() {
    let r = validate_name("a", Some("b"), "/s/b/SKILL.md");
    assert!(!r.skip);
    assert_eq!(r.diagnostics.len(), 1);
    assert_eq!(r.diagnostics[0].kind, DiagnosticKind::Warning);
    assert_eq!(
        r.diagnostics[0].message,
        "name \"a\" does not match parent directory \"b\""
    );
    assert!(validate_name("a", None, "x").diagnostics.is_empty());
}

#[test]
fn a_skill_is_loaded_from_its_file() {
    let content = "---\ndescription:  what it does \nadvertise: TRUE\n---\nbody";
    let (skill, diagnostics) = load_skill_from_content(content, "/skills/my-skill/SKILL.md");
    let skill = skill.unwrap();
    assert_eq!(skill.name, "my-skill");
    assert_eq!(skill.description, "what it does");
    assert_eq!(skill.file_path, "/skills/my-skill/SKILL.md");
    assert!(skill.add_to_prompt);
    assert_eq!(skill.base_dir(), "/skills/my-skill");
    assert!(diagnostics.is_empty());

    for (value, expected) in [("1", true), ("true", true), ("yes", false), ("0", false)] {
        let content = format!("---\ndescription: d\nadvertise: {value}\n---\n");
        let (skill, _) = load_skill_from_content(&content, "/s/a/SKILL.md");
        assert_eq!(skill.unwrap().add_to_prompt, expected);
    }
}

#[test]
fn a_file_without_a_description_is_skipped() {
    for content in ["body", "---\ndescription: \" \"\n---\n"] {
        let (skill, diagnostics) = load_skill_from_content(content, "/s/a/SKILL.md");
        assert!(skill.is_none());
        assert_eq!(diagnostics.len(), 1);
        assert_eq!(diagnostics[0].kind, DiagnosticKind::Skipped);
        assert_eq!(diagnostics[0].message, "description is required");
        assert_eq!(diagnostics[0].path, "/s/a/SKILL.md");
    }
    let (skill, diagnostics) = load_skill_from_content("---\nname: A\n---\n", "/s/a/SKILL.md");
    assert!(skill.is_none());
    assert_eq!(diagnostics.len(), 2);
}

#[test]
fn a_long_description_is_only_noted() {
    let content = format!("---\ndescription: {}\n---\n", "d".repeat(1025));
    let (skill, diagnostics) = load_skill_from_content(&content, "/s/a/SKILL.md");
    assert!(skill.is_some());
    assert_eq!(diagnostics[0].message, "description exceeds 1024 characters (1025)");
    assert_eq!(diagnostics[0].kind, DiagnosticKind::Warning);
}

fn file(path: &str, name: &str) -> SkillFile {
    SkillFile {
        path: path.to_owned(),
        content: Ok(format!("---\nname: {name}\ndescription: of {path}\n---\n")),
    }
}

#[test]
fn the_first_skill_with_a_name_wins() {
    let result = load_skills_from_dirs(&[
        vec![file("/1/b/SKILL.md", "b")],
        vec![file("/2/a/SKILL.md", "a"), file("/2/b/SKILL.md", "b")],
    ]);
    let names: Vec<&str> = result.skills.iter().map(|s| s.name.as_str()).collect();
    assert_eq!(names, vec!["a", "b"]);
    assert_eq!(result.skills[1].file_path, "/1/b/SKILL.md");
    assert_eq!(result.diagnostics.len(), 1);
    assert_eq!(result.diagnostics[0].kind, DiagnosticKind::Collision);
    assert_eq!(result.diagnostics[0].path, "/2/b/SKILL.md");
    assert_eq!(
        result.diagnostics[0].message,
        "name \"b\" collision — keeping /1/b/SKILL.md"
    );
}

#[test]
fn unreadable_files_are_noted() {
    let broken = SkillFile { path: "/1/x.md".to_owned(), content: Err("denied".to_owned()) };
    let result = load_skills_from_dir(vec![broken, file("/1/a/SKILL.md", "a")]);
    assert_eq!(result.skills.len(), 1);
    assert_eq!(result.diagnostics[0].kind, DiagnosticKind::Warning);
    assert_eq!(result.diagnostics[0].message, "failed to read: denied");
}

fn child(name: &str, kind: FileKind) -> Child {
    Child { name: Some(name.to_owned()), kind }
}

/// Searches a tree given as the listings of its directories.
fn search(root: &str, tree: &[(&str, Vec<Child>)]) -> (Vec<String>, Vec<String>) {
    let mut discovery = Discovery::new(root);
    let mut read = Vec::new();
    loop {
        let dir = match discovery.next_directory() {
            Some(dir) => dir,
            None => break,
        };
        let children = tree.iter().find(|(d, _)| *d == dir).map(|(_, c)| c.clone());
        discovery.directory_read(&dir, children);
        read.push(dir);
    }
    (discovery.found().clone(), read)
}

#[test]
fn skills_are_found_where_they_may_lie() {
    let tree = vec![
        (
            "/s",
            vec![
                child("one", FileKind::Directory),
                child("top.md", FileKind::File),
                child("notes.txt", FileKind::File),
                child(".hidden", FileKind::Directory),
                child("node_modules", FileKind::Directory),
                child("link", FileKind::Link),
                child("link.md", FileKind::Link),
                child("pipe", FileKind::Other),
                Child { name: None, kind: FileKind::Directory },
                child("two", FileKind::Directory),
                child("unreadable", FileKind::Directory),
            ],
        ),
        (
            "/s/one",
            vec![child("inner", FileKind::Directory), child("SKILL.md", FileKind::File)],
        ),
        (
            "/s/two",
            vec![
                child("SKILL.md", FileKind::Directory),
                child("extra.md", FileKind::File),
                child("deep", FileKind::Directory),
            ],
        ),
        ("/s/two/SKILL.md", vec![]),
        ("/s/two/deep", vec![child("SKILL.md", FileKind::File)]),
    ];
    let (found, read) = search("/s", &tree);
    assert_eq!(found, vec!["/s/one/SKILL.md", "/s/top.md", "/s/two/deep/SKILL.md"]);
    assert_eq!(
        read,
        vec!["/s", "/s/one", "/s/two", "/s/two/SKILL.md", "/s/two/deep", "/s/unreadable"]
    );
}

#[test]
fn a_root_can_be_a_skill_itself() {
    let tree = vec![(
        "/s",
        vec![child("other.md", FileKind::File), child("SKILL.md", FileKind::File)],
    )];
    assert_eq!(search("/s", &tree).0, vec!["/s/SKILL.md"]);
    assert_eq!(search("/missing", &tree).0, Vec::<String>::new());
}
