use reinda::glob::{Globness, SplitGlob};

#[test]
fn glob_classification() {
    assert_eq!(Globness::check("foo.txt"), Globness::NotGlob("foo.txt".into()));
    assert_eq!(Globness::check("bar/foo.txt"), Globness::NotGlob("bar/foo.txt".into()));
    assert_eq!(Globness::check("fo[?]x.svg"), Globness::NotGlob("fo?x.svg".into()));
    assert_eq!(Globness::check("fo[*]x.svg"), Globness::NotGlob("fo*x.svg".into()));
    assert_eq!(Globness::check("fo[]]x.svg"), Globness::NotGlob("fo]x.svg".into()));
    assert_eq!(Globness::check("fo[[]x.svg"), Globness::NotGlob("fo[x.svg".into()));

    assert_eq!(Globness::check("fo*x.svg"), Globness::Glob);
    assert_eq!(Globness::check("fo?x.svg"), Globness::Glob);
    assert_eq!(Globness::check("fo[ab]x.svg"), Globness::Glob);
}

#[test]
fn glob_classification_edge_cases() {
    assert_eq!(Globness::check(""), Globness::NotGlob("".into()));
    assert_eq!(Globness::check("a["), Globness::Glob);
    assert_eq!(Globness::check("[?"), Globness::Glob);
    assert_eq!(Globness::check("m\u{e4}rchen.md"), Globness::NotGlob("m\u{e4}rchen.md".into()));
}

fn split(whole: &str) -> (String, String) {
    let g = SplitGlob::new(whole);
    (g.prefix, g.suffix)
}

#[test]
fn split_glob() {
    assert_eq!(split("frontend/build/fonts/*.woff2"), ("frontend/build/fonts/".into(), "*.woff2".into()));
    assert_eq!(split("frontend/**/banana.txt"), ("frontend/".into(), "**/banana.txt".into()));
    assert_eq!(split("../foo/bar*/*.svg"), ("../foo/".into(), "bar*/*.svg".into()));
}

#[test]
fn split_glob_without_meta_characters() {
    assert_eq!(split("a/b/c.txt"), ("a/b/c.txt".into(), "".into()));
    assert_eq!(split("*.txt"), ("".into(), "*.txt".into()));
}

#[test]
fn split_glob_matching() {
    let g = SplitGlob::new("fonts/*.woff2");
    assert!(g.is_valid());
    assert!(g.matches("static/font/", "static/font/a.woff2"));
    assert!(!g.matches("static/font/", "static/font/a.ttf"));
    assert!(!g.matches("static/font/", "other/a.woff2"));
    assert!(!SplitGlob::new("a/[").is_valid());
}
