use voxels::shader::{is_whitespace, parent_of, safe_join, Missing, Source, SourceFile};

fn chars(text: &str) -> Vec<char> {
    text.chars().collect()
}

fn text(chars: &Vec<char>) -> String {
    chars.iter().collect()
}

fn file(path: &str, code: &str) -> SourceFile {
    SourceFile { path: chars(path), code: chars(code) }
}

fn loaded(path: &str, files: &Vec<SourceFile>) -> Option<(String, Vec<String>)> {
    voxels::shader::load(&chars(path), files)
        .ok()
        .map(|Source { code, included_paths }| (text(&code), included_paths.iter().map(text).collect()))
}

fn missing(path: &str, files: &Vec<SourceFile>) -> Option<String> {
    match voxels::shader::load(&chars(path), files) {
        Ok(_) => None,
        Err(Missing { path }) => Some(text(&path)),
    }
}

const EXPECTED_MAIN_CODE: &str = r#"inc8 code

inc6 code

inc5 code

inc4 code

inc3 code

inc1 code

inc2 code

inc7 code

main code
"#;

fn shader_tree() -> Vec<SourceFile> {
    vec![
        file(
            "test/shaders/main.wgsl",
            "#include \"inc1.wgsl\"\n\n#include \"inc2.wgsl\"\n\n#include \"nested/inc7.wgsl\"\n\nmain code\n",
        ),
        file("test/shaders/inc1.wgsl", "#include \"inc3.wgsl\"\n\ninc1 code\n"),
        file("test/shaders/inc2.wgsl", "#include \"./inc1.wgsl\"\n#include \"inc3.wgsl\"\ninc2 code\n"),
        file("test/shaders/inc3.wgsl", "#include \"nested/inc4.wgsl\"\n\ninc3 code\n"),
        file("test/shaders/nested/inc4.wgsl", "#include \"inc5.wgsl\"\n\ninc4 code\n"),
        file("test/shaders/nested/inc5.wgsl", "#include \"deeper/inc6.wgsl\"\n\ninc5 code\n"),
        file("test/shaders/nested/deeper/inc6.wgsl", "#include \"../../inc8.wgsl\"\n\ninc6 code\n"),
        file("test/shaders/nested/inc7.wgsl", "#include \"../inc2.wgsl\"\n#include \"inc4.wgsl\"\ninc7 code\n"),
        file("test/shaders/inc8.wgsl", "#include \"inc1.wgsl\"\ninc8 code\n"),
    ]
}

#[test]
fn include_pattern() {
    let files = vec![
        file(
            "main",
            r#"#include "included-1"
#include "included-2"
#include "included-3"
some code"#,
        ),
        file("included-1", "included-1 code\n"),
        file("included-2", "included-2 code\n"),
        file("included-3", "included-3 code\n"),
    ];
    let (code, _) = loaded("main", &files).unwrap();
    assert_eq!(
        r#"included-1 code
included-2 code
included-3 code
some code"#,
        code
    );
}

#[test]
fn load() {
    let (code, included) = loaded("test/shaders/main.wgsl", &shader_tree()).unwrap();
    assert_eq!(code, EXPECTED_MAIN_CODE);
    assert_eq!(
        included,
        vec![
            "test/shaders/inc1.wgsl",
            "test/shaders/inc3.wgsl",
            "test/shaders/nested/inc4.wgsl",
            "test/shaders/nested/inc5.wgsl",
            "test/shaders/nested/deeper/inc6.wgsl",
            "test/shaders/inc8.wgsl",
            "test/shaders/inc2.wgsl",
            "test/shaders/nested/inc7.wgsl",
        ]
    );
}

#[test]
fn load_without_directives_is_the_text() {
    for code in ["", "\n", "plain", "plain\n", "a\nb\n\nc", "#include\n", "# include \"x\"\n"] {
        let files = vec![file("only", code)];
        assert_eq!(loaded("only", &files), Some((code.to_string(), vec![])));
    }
}

#[test]
fn load_fails_where_a_file_is_missing() {
    let files = vec![file("dir/main", "before\n#include \"gone\"\nafter\n")];
    assert_eq!(loaded("dir/main", &files), None);
    assert_eq!(loaded("dir/other", &files), None);
    assert_eq!(loaded("main", &files), None);
    let files = vec![
        file("main", "#include \"a\"\n"),
        file("a", "#include \"b\"\n"),
        file("b", "#include \"c\"\n"),
    ];
    assert_eq!(loaded("main", &files), None);
    assert_eq!(loaded("main", &Vec::new()), None);
}

#[test]
fn load_names_the_first_file_that_is_missing() {
    let files = vec![
        file("dir/main", "#include \"a\"\n#include \"sub/b\"\n#include \"../c\"\n"),
        file("dir/a", "#include \"deep/d\"\nA\n"),
    ];
    assert_eq!(missing("dir/main", &files), Some("dir/deep/d".to_string()));
    assert_eq!(missing("dir/none", &files), Some("dir/none".to_string()));
    let mut files = files;
    files.push(file("dir/deep/d", "D\n"));
    assert_eq!(missing("dir/main", &files), Some("dir/sub/b".to_string()));
    files.push(file("dir/sub/b", "B\n"));
    assert_eq!(missing("dir/main", &files), Some("c".to_string()));
    files.push(file("c", "C\n"));
    assert_eq!(missing("dir/main", &files), None);
    assert_eq!(loaded("dir/main", &files).unwrap().0, "D\nA\nB\nC\n");
}

#[test]
fn a_file_is_taken_in_once() {
    let files = vec![
        file("main", "#include \"a\"\n#include \"a\"\n#include \"b\"\nend\n"),
        file("a", "A\n"),
        file("b", "#include \"a\"\nB\n"),
    ];
    assert_eq!(
        loaded("main", &files),
        Some(("A\nB\nend\n".to_string(), vec!["a".to_string(), "b".to_string()]))
    );
}

#[test]
fn a_file_that_names_itself_is_taken_in_once_more() {
    let files = vec![file("main", "top\n#include \"main\"\nbottom\n")];
    assert_eq!(
        loaded("main", &files),
        Some(("top\ntop\nbottom\nbottom\n".to_string(), vec!["main".to_string()]))
    );
    let files = vec![file("a", "#include \"b\"\nA\n"), file("b", "#include \"a\"\nB\n")];
    assert_eq!(
        loaded("a", &files),
        Some(("A\nB\nA\n".to_string(), vec!["b".to_string(), "a".to_string()]))
    );
}

#[test]
fn the_first_file_with_a_path_is_the_one() {
    let files = vec![file("main", "#include \"x\"\n"), file("x", "first\n"), file("x", "second\n")];
    assert_eq!(loaded("main", &files), Some(("first\n".to_string(), vec!["x".to_string()])));
}

#[test]
fn only_whole_lines_are_directives() {
    let files = vec![file("x", "X\n"), file("x\"y", "XY\n")];
    let kept = [
        "#include \"x\"",
        " #include \"x\"\n",
        "#include \"x\" \n",
        "#include \"x\"\r\n",
        "#include \"\"\n",
        "#include \"x y\"\n",
        "#include \"x\ty\"\n",
        "#include \"x\u{a0}y\"\n",
        "#include \"x\u{2003}y\"\n",
        "#include \"x\u{3000}y\"\n",
        "#include  \"x\"\n",
        "#include \"x\n",
        "#include x\"\n",
        "#Include \"x\"\n",
        "//#include \"x\"\n",
        "#include \"x\";\n",
    ];
    for line in kept {
        let mut table = vec![file("main", line)];
        table.extend(files.iter().map(|f| file(&text(&f.path), &text(&f.code))));
        assert_eq!(loaded("main", &table), Some((line.to_string(), vec![])), "{:?}", line);
    }
    let mut table = vec![file("main", "#include \"x\"y\"\n")];
    table.extend(files.iter().map(|f| file(&text(&f.path), &text(&f.code))));
    assert_eq!(loaded("main", &table), Some(("XY\n".to_string(), vec!["x\"y".to_string()])));
}

#[test]
fn directives_are_what_the_pattern_matches() {
    let pattern = regex::Regex::new(r#"(?m)^#include "(\S+)"(?-m)\n"#).unwrap();
    let lines = [
        "#include \"a\"\n",
        "#include \"b\"\n",
        "#include \"a\"",
        "text\n",
        "\n",
        " #include \"a\"\n",
        "#include \"a b\"\n",
        "#include \"c\"\"\n",
        "#include \"\"\n",
        "#include \"d\u{85}e\"\n",
        "#include \"f\u{feff}g\"\n",
        "#include \"h\u{200b}i\"\n",
        "#include \"j\"\r\n",
        "x#include \"a\"\n",
        "#include \"k\"#include \"l\"\n",
        "#include \"m\" \"n\"\n",
    ];
    let mut seed = 12345u32;
    for _ in 0..300 {
        let mut main = String::new();
        for _ in 0..6 {
            seed = seed.wrapping_mul(1_103_515_245).wrapping_add(12_345);
            main.push_str(lines[(seed >> 16) as usize % lines.len()]);
        }
        let mut files = vec![file("main", &main)];
        let mut seen: Vec<String> = Vec::new();
        for captures in pattern.captures_iter(&main) {
            let name = captures[1].to_string();
            if !seen.contains(&name) {
                files.push(file(&name, &format!("<{}>", name)));
                seen.push(name);
            }
        }
        let mut taken: Vec<String> = Vec::new();
        let expected = pattern.replace_all(&main, |captures: &regex::Captures| {
            let name = captures[1].to_string();
            if taken.contains(&name) {
                String::new()
            } else {
                taken.push(name.clone());
                format!("<{}>", name)
            }
        });
        assert_eq!(loaded("main", &files), Some((expected.to_string(), seen)), "{:?}", main);
    }
}

#[test]
fn is_whitespace_is_the_unicode_property() {
    for code in 0..0x11_0000u32 {
        if let Some(c) = char::from_u32(code) {
            assert_eq!(is_whitespace(c), c.is_whitespace(), "{:x}", code);
        }
    }
}

#[test]
fn safe_join_follows_the_components() {
    let cases = [
        ("a/b", "c", "a/b/c"),
        ("a/b", "c/d.wgsl", "a/b/c/d.wgsl"),
        ("a/b", "../c", "a/c"),
        ("a/b", "../../c", "c"),
        ("a/b", "../../../c", "c"),
        ("a/b", "./c", "a/b/c"),
        ("a/b", "c/./d", "a/b/c/d"),
        ("a/b", "c//d", "a/b/c/d"),
        ("a/b", "/c", "a/b/c"),
        ("a/b", "c/", "a/b/c"),
        ("a/b", "c/..", "a/b"),
        ("a/b", "", "a/b"),
        ("a/b", ".", "a/b"),
        ("a/b", "..", "a"),
        ("a/b", "...", "a/b/..."),
        ("", "c", "c"),
        ("", "../c", "c"),
        ("/", "c", "/c"),
        ("/a", "../c", "/c"),
        ("/a", "../../c", "/c"),
        ("a", "..", ""),
    ];
    for (left, right, expected) in cases {
        assert_eq!(text(&safe_join(&chars(left), &chars(right))), expected, "{:?} {:?}", left, right);
    }
}

#[test]
fn safe_join_agrees_with_paths_of_the_system() {
    let lefts = ["a/b", "a", "", "/", "/x/y", "shaders"];
    let rights = ["c", "../c", "./c/d", "../../e/f.wgsl", "/g", "h//i", "j/../k", ".."];
    for left in lefts {
        for right in rights {
            let mut path = std::path::PathBuf::from(left);
            for component in std::path::Path::new(right).components() {
                match component {
                    std::path::Component::Normal(name) => path.push(name),
                    std::path::Component::ParentDir => {
                        path.pop();
                    }
                    _ => {}
                }
            }
            assert_eq!(
                text(&safe_join(&chars(left), &chars(right))),
                path.to_str().unwrap(),
                "{:?} {:?}",
                left,
                right
            );
        }
    }
}

#[test]
fn parent_of_drops_the_last_component() {
    let cases = [("a/b/c", "a/b"), ("a/b", "a"), ("a", ""), ("", ""), ("/a", "/"), ("/", "/"), ("/a/b", "/a")];
    for (path, expected) in cases {
        assert_eq!(text(&parent_of(&chars(path))), expected, "{:?}", path);
    }
}
