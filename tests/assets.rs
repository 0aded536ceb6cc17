use base64::Engine;
use sha2::Digest;

use reinda::assets::{
    missing_dependency, Builder, KeepContent, BuildError, ContentModifier, DataSource, FlatAsset, ModifierContext,
};
use reinda::embed::{EmbeddedEntry, EmbeddedFile, EmbeddedGlob, Embeds};
use reinda::util::replace_many;

fn hash_text(content: &[u8]) -> String {
    let digest = sha2::Sha256::digest(content);
    base64::engine::general_purpose::URL_SAFE_NO_PAD.encode(&digest[..9])
}

/// Replaces `{{ css }}` by the public path of `style.css`.
struct CssLink;

impl ContentModifier for CssLink {
    fn modify(&self, _: usize, content: Vec<u8>, ctx: &ModifierContext) -> Vec<u8> {
        assert!(ctx.can_resolve("style.css"));
        assert!(!ctx.can_resolve("other.css"));
        assert_eq!(ctx.dependencies(), &vec!["style.css".to_string()]);
        let css = ctx.resolve_path("style.css");
        replace_many(&content, &vec![(b"{{ css }}".to_vec(), css.into_bytes())]).unwrap()
    }
}

fn loaded(flat: &[FlatAsset]) -> Vec<Vec<u8>> {
    flat.iter()
        .map(|f| match &f.source {
            DataSource::Loaded(b) => b.clone(),
            DataSource::File(_) => panic!("no files in these tests"),
        })
        .collect()
}

fn file(path: &str, content: &[u8]) -> EmbeddedFile {
    EmbeddedFile { path: path.into(), full_path: format!("/x/{}", path), content: content.to_vec(), compressed: false }
}

#[test]
fn minimal() {
    let embeds = Embeds { entries: vec![EmbeddedEntry::Single(file("peter.txt", b"Peter und der Wolf.\n"))] };
    let mut builder = Builder::new();
    builder.add_embedded("m\u{e4}rchen.md", embeds.get("peter.txt").unwrap()).unwrap();
    let flat = builder.flatten();
    let a = Builder::build_loaded(&flat, &loaded(&flat), &KeepContent).unwrap();

    assert_eq!(a.len(), 1);
    assert_eq!(a.iter().len(), 1);
    let (path, asset) = &a.iter()[0];
    assert_eq!(path, "m\u{e4}rchen.md");
    let expected = b"Peter und der Wolf.\n".as_slice();
    assert_eq!(asset.content().as_slice(), expected);
    assert_eq!(asset.is_filename_hashed(), false);

    let asset = a.get("m\u{e4}rchen.md").unwrap();
    assert_eq!(asset.content().as_slice(), expected);
    assert_eq!(asset.is_filename_hashed(), false);

    assert!(a.get("m\u{e4}rchen.md2").is_none());
    assert!(a.get("m\u{e4}rchen.m").is_none());
    assert!(a.get("xm\u{e4}rchen.md").is_none());
    assert!(a.get("peter.txt").is_none());
}

#[test]
fn glob_fixup_and_custom_modifier() {
    let fonts = EmbeddedGlob {
        pattern: "fonts/*.woff2".into(),
        files: vec![file("fonts/a.woff2", b"AAA"), file("fonts/b.woff2", b"BBB")],
        base_path: "/x".into(),
    };
    let mut builder = Builder::new();
    let font_paths = builder
        .add_embedded_glob("static/font/", &fonts)
        .unwrap()
        .with_hash()
        .http_paths();
    assert_eq!(font_paths, vec!["static/font/a.woff2".to_string(), "static/font/b.woff2".to_string()]);
    let css = b"src: url(static/font/a.woff2); src: url(static/font/b.woff2);";
    let css_path = builder
        .add_embedded_file("style.css", &file("style.css", css))
        .unwrap()
        .with_path_fixup(font_paths)
        .with_hash()
        .single_http_path()
        .unwrap();
    assert_eq!(css_path, "style.css");
    builder
        .add_embedded_file("index.html", &file("index.html", b"<link href=\"{{ css }}\">"))
        .unwrap()
        .with_modifier(vec![css_path.clone()]);

    let flat = builder.flatten();
    assert_eq!(flat.len(), 4);
    let a = Builder::build_loaded(&flat, &loaded(&flat), &CssLink).unwrap();
    assert_eq!(a.len(), 4);

    let font_a = format!("static/font/a.{}.woff2", hash_text(b"AAA"));
    let font_b = format!("static/font/b.{}.woff2", hash_text(b"BBB"));
    assert_eq!(a.get(&font_a).unwrap().content(), &b"AAA".to_vec());
    assert!(a.get(&font_a).unwrap().is_filename_hashed());
    assert!(a.get("static/font/a.woff2").is_none());

    let fixed = format!("src: url({}); src: url({});", font_a, font_b).into_bytes();
    let css_public = format!("style.{}.css", hash_text(&fixed));
    assert_eq!(a.get(&css_public).unwrap().content(), &fixed);

    let html = format!("<link href=\"{}\">", css_public).into_bytes();
    let index = a.get("index.html").unwrap();
    assert_eq!(index.content(), &html);
    assert!(!index.is_filename_hashed());
}

#[test]
fn cyclic_modifier_dependencies() {
    let mut builder = Builder::new();
    builder.add_embedded_file("a", &file("a", b"a")).unwrap().with_path_fixup(vec!["b".into()]);
    builder.add_embedded_file("b", &file("b", b"b")).unwrap().with_path_fixup(vec!["a".into()]);
    let flat = builder.flatten();
    match Builder::build_loaded(&flat, &loaded(&flat), &KeepContent) {
        Err(BuildError::CyclicDependencies(c)) => {
            assert_eq!(c.len(), 2);
            assert!(c.contains(&"a".to_string()) && c.contains(&"b".to_string()));
        }
        _ => panic!("expected a cycle"),
    }
}

#[test]
fn unknown_modifier_dependency() {
    let mut builder = Builder::new();
    builder.add_embedded_file("a", &file("a", b"a")).unwrap().with_modifier(vec!["zzz".into()]);
    let flat = builder.flatten();
    assert_eq!(missing_dependency(&flat), Some(("a".to_string(), "zzz".to_string())));
    let mut ok = Builder::new();
    ok.add_embedded_file("a", &file("a", b"a")).unwrap();
    assert_eq!(missing_dependency(&ok.flatten()), None);
}

#[test]
fn hash_between() {
    let mut builder = Builder::new();
    builder.add_embedded_file("x.js", &file("x.js", b"x")).unwrap().with_hash_between("js/app-", ".min.js");
    let flat = builder.flatten();
    let a = Builder::build_loaded(&flat, &loaded(&flat), &KeepContent).unwrap();
    assert_eq!(a.iter()[0].0, format!("js/app-{}.min.js", hash_text(b"x")));
}

#[test]
fn add_file_is_loaded_later() {
    let mut builder = Builder::new();
    builder.add_file("robots.txt", "/srv/robots.txt");
    let flat = builder.flatten();
    assert!(matches!(&flat[0].source, DataSource::File(p) if p == "/srv/robots.txt"));
}

#[test]
fn replace_many_replaces_in_one_pass() {
    let r = replace_many(b"a b a", &vec![(b"a".to_vec(), b"b".to_vec()), (b"b".to_vec(), b"c".to_vec())]).unwrap();
    assert_eq!(r, b"b c b".to_vec());
}

#[test]
fn embeds_lookup() {
    let glob = EmbeddedGlob { pattern: "*.txt".into(), files: vec![file("a.txt", b"a")], base_path: "/x".into() };
    let embeds = Embeds {
        entries: vec![EmbeddedEntry::Single(file("one.txt", b"1")), EmbeddedEntry::Glob(glob)],
    };
    assert_eq!(embeds.entries().len(), 2);
    let g = embeds.get("*.txt").unwrap();
    assert_eq!(g.embed_pattern(), "*.txt");
    assert!(g.as_file().is_none());
    assert_eq!(g.as_glob().unwrap().files().len(), 1);
    assert_eq!(g.files().len(), 1);
    let f = embeds.get("one.txt").unwrap();
    assert_eq!(f.as_file().unwrap().path(), "one.txt");
    assert_eq!(f.as_file().unwrap().content(), Some(b"1".to_vec()));
    assert!(embeds.get("two.txt").is_none());
}

#[test]
fn compressed_embedded_file_is_decompressed() {
    let plain = b"hello hello hello hello hello hello".to_vec();
    let mut compressed = Vec::new();
    brotli::BrotliCompress(&mut plain.as_slice(), &mut compressed, &Default::default()).unwrap();
    assert_ne!(compressed, plain);
    let f = EmbeddedFile { path: "h.txt".into(), full_path: "/x/h.txt".into(), content: compressed, compressed: true };
    assert_eq!(f.content(), Some(plain));
    let broken = EmbeddedFile { path: "b.txt".into(), full_path: "/x/b.txt".into(), content: vec![1, 2, 3], compressed: true };
    assert_eq!(broken.content(), None);
}

#[test]
fn later_entry_wins_on_the_same_path() {
    let mut builder = Builder::new();
    builder.add_embedded_file("x.txt", &file("one.txt", b"first")).unwrap();
    builder.add_embedded_file("x.txt", &file("two.txt", b"second")).unwrap();
    let flat = builder.flatten();
    let a = Builder::build_loaded(&flat, &loaded(&flat), &KeepContent).unwrap();
    assert_eq!(a.len(), 1);
    assert_eq!(a.get("x.txt").unwrap().content(), &b"second".to_vec());
}

#[test]
fn cycle_is_reported_before_fixups() {
    let mut builder = Builder::new();
    builder.add_embedded_file("a", &file("a", b"a")).unwrap().with_path_fixup(vec!["b".into()]).with_hash();
    builder.add_embedded_file("b", &file("b", b"b")).unwrap().with_modifier(vec!["a".into()]);
    let flat = builder.flatten();
    assert!(matches!(
        Builder::build_loaded(&flat, &loaded(&flat), &KeepContent),
        Err(BuildError::CyclicDependencies(_))
    ));
}
