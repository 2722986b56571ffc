use incremental::compiler::{
    build_file_module, find_child_of, not_found_diagnostic, not_found_text, parse_text, Ast,
    Diagnostic,
};
use incremental::module::{Module, ModuleInner};
use incremental::text::{is_whitespace, split_lines, split_on, split_words};

fn text(s: &str) -> Vec<char> {
    s.chars().collect()
}

fn texts(items: &[&str]) -> Vec<Vec<char>> {
    items.iter().map(|s| text(s)).collect()
}

const SAMPLES: [&str; 16] = [
    "",
    "abc\nfoo",
    "file1.foo\n                test",
    "a\r\nb\r\n",
    "a\rb\n\rc",
    "\n",
    "\n\n",
    "one line",
    "ends in cr\r",
    " \t lead and  trail \u{3000}",
    "nbsp\u{a0}here\u{2003}and\u{85}there",
    "zero\u{200b}width is no space",
    "a.b.c",
    ".a..b.",
    "...",
    "x\u{b}y\u{c}z\u{1680}w\u{2028}v\u{2029}u\u{202f}t\u{205f}s",
];

#[test]
fn lines_are_those_of_std() {
    for sample in SAMPLES {
        let expected: Vec<Vec<char>> = sample.lines().map(text).collect();
        assert_eq!(split_lines(&text(sample)), expected, "{:?}", sample);
    }
}

#[test]
fn words_are_those_of_std() {
    for sample in SAMPLES {
        let expected: Vec<Vec<char>> = sample.split_whitespace().map(text).collect();
        assert_eq!(split_words(&text(sample)), expected, "{:?}", sample);
    }
}

#[test]
fn segments_are_those_of_std() {
    for sample in SAMPLES {
        let expected: Vec<Vec<char>> = sample.split('.').map(text).collect();
        assert_eq!(split_on(&text(sample), '.'), expected, "{:?}", sample);
    }
}

#[test]
fn white_space_is_that_of_std() {
    for code in 0u32..0x3100 {
        if let Some(c) = char::from_u32(code) {
            assert_eq!(is_whitespace(c), c.is_whitespace(), "{:x}", code);
        }
    }
    assert!(!is_whitespace('\u{10ffff}'));
}

#[test]
fn lines_by_example() {
    assert_eq!(split_lines(&text("abc\nfoo")), texts(&["abc", "foo"]));
    assert_eq!(split_lines(&text("abc\r\nfoo\n")), texts(&["abc", "foo"]));
    assert_eq!(split_lines(&text("a\n\nb")), texts(&["a", "", "b"]));
    assert_eq!(split_lines(&text("")), texts(&[]));
}

#[test]
fn words_by_example() {
    assert_eq!(split_words(&text("    foo test")), texts(&["foo", "test"]));
    assert_eq!(split_words(&text("   ")), texts(&[]));
}

#[test]
fn segments_by_example() {
    assert_eq!(split_on(&text("file1.foo"), '.'), texts(&["file1", "foo"]));
    assert_eq!(split_on(&text("file2"), '.'), texts(&["file2"]));
    assert_eq!(split_on(&text(""), '.'), texts(&[""]));
    assert_eq!(split_on(&text("a..b"), '.'), texts(&["a", "", "b"]));
}

#[test]
fn content_of_two_lines_parses() {
    assert_eq!(
        parse_text(&text("file1.foo\n                test")),
        Some(Ast { imports: texts(&["file1.foo"]), exports: texts(&["test"]) })
    );
    assert_eq!(
        parse_text(&text("\n")),
        None
    );
    assert_eq!(
        parse_text(&text("\n\n")),
        Some(Ast { imports: texts(&[]), exports: texts(&[]) })
    );
    assert_eq!(parse_text(&text("")), None);
    assert_eq!(parse_text(&text("a")), None);
    assert_eq!(parse_text(&text("a\nb\nc")), None);
}

#[test]
fn the_finding_names_the_import_and_the_file() {
    assert_eq!(not_found_text(), text("module not found: "));
    assert_eq!(
        not_found_diagnostic(&text("file2"), &text("file1")),
        Diagnostic { message: text("module not found: file2"), file: text("file1") }
    );
}

#[test]
fn a_file_module_lists_the_exports() {
    let module = build_file_module(&text("f"), &texts(&["a", "b"]));
    let expected = Module {
        name: text("f"),
        inner: ModuleInner::Dir(vec![
            Module { name: text("a"), inner: ModuleInner::Export },
            Module { name: text("b"), inner: ModuleInner::Export },
        ]),
    };
    assert_eq!(module, expected);
    match &module.inner {
        ModuleInner::Dir(children) => {
            assert_eq!(find_child_of(children, &text("b")), Some(1));
            assert_eq!(find_child_of(children, &text("c")), None);
        }
        ModuleInner::Export => panic!(),
    }
}
