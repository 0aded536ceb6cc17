use base64::Engine;
use sha2::Digest;

use reinda::catalog::{raw_content, AssetDef, Setup};
use reinda::hash::{hash_of, path_of, PathHash};
use reinda::resolve::{resolve, ResolveError, SingleAssetWalk};

fn hash_text(content: &[u8]) -> String {
    let digest = sha2::Sha256::digest(content);
    base64::engine::general_purpose::URL_SAFE_NO_PAD.encode(&digest[..9])
}

fn def(path: &str, template: bool, hash: PathHash) -> AssetDef {
    AssetDef {
        path: path.into(),
        serve: true,
        dynamic: false,
        hash,
        template,
        append: None,
        prepend: None,
        content: vec![],
    }
}

fn setup(defs: Vec<AssetDef>) -> Setup {
    Setup { assets: defs, base_path: String::new() }
}

fn no_vars() -> Vec<(String, String)> {
    vec![]
}

#[test]
fn auto_hash_goes_before_the_first_dot() {
    let content = b"some content";
    let h = hash_text(content);
    assert_eq!(h.len(), 12);
    assert_eq!(path_of(&PathHash::Auto, "sub/main.js.map", content), format!("sub/main.{}.js.map", h));
    assert_eq!(path_of(&PathHash::Auto, "folder/raw-data", content), format!("folder/raw-data-{}", h));
    assert_eq!(path_of(&PathHash::Auto, "a.b/c", content), format!("a.b/c-{}", h));
    assert_eq!(path_of(&PathHash::Auto, "x/.env", content), format!("x/.{}.env", h));
    assert_eq!(path_of(&PathHash::Unhashed, "a/b.js", content), "a/b.js");
    let between = PathHash::InBetween { prefix: "p-".into(), suffix: ".s".into() };
    assert_eq!(path_of(&between, "ignored", content), format!("p-{}.s", h));
    assert_eq!(hash_of(content), h);
}

#[test]
fn hash_of_known_digest() {
    // SHA-256 of the empty string starts with e3 b0 c4 42 98 fc 1c 14 9a.
    assert_eq!(hash_of(b""), "47DEQpj8HBSa");
}

#[test]
fn include_is_rendered() {
    let s = setup(vec![def("a.txt", true, PathHash::Unhashed), def("foo.txt", true, PathHash::Unhashed)]);
    let raws = vec![b"a({{: include:foo.txt :}})\n".to_vec(), b"foo\n".to_vec()];
    let res = resolve(&s, &raws, &no_vars()).unwrap();
    assert_eq!(res.assets[0], b"a(foo\n)\n".to_vec());
    assert_eq!(res.assets[1], b"foo\n".to_vec());
    assert_eq!(res.public_paths, vec!["a.txt".to_string(), "foo.txt".to_string()]);
}

#[test]
fn cyclic_includes_are_reported() {
    let s = setup(vec![
        def("a.txt", true, PathHash::Unhashed),
        def("b.txt", true, PathHash::Unhashed),
        def("c.txt", true, PathHash::Unhashed),
    ]);
    let raws = vec![
        b"{{: include:b.txt :}}".to_vec(),
        b"{{: include:c.txt :}}".to_vec(),
        b"{{: include:a.txt :}}".to_vec(),
    ];
    match resolve(&s, &raws, &no_vars()) {
        Err(ResolveError::CyclicInclude(cycle)) => {
            assert_eq!(cycle.len(), 3);
            for p in ["a.txt", "b.txt", "c.txt"] {
                assert!(cycle.contains(&p.to_string()), "{:?}", cycle);
            }
        }
        other => panic!("unexpected: {:?}", other.map(|r| r.public_paths)),
    }
}

#[test]
fn path_reference_gets_the_hashed_name() {
    let s = setup(vec![
        def("bundle.js", true, PathHash::Auto),
        def("bundle.js.map", false, PathHash::Auto),
    ]);
    let map = b"{\"version\":3}".to_vec();
    let raws = vec![b"code();\n//# sourceMappingURL={{: path:bundle.js.map :}}\n".to_vec(), map.clone()];
    let res = resolve(&s, &raws, &no_vars()).unwrap();
    let map_path = format!("bundle.{}.js.map", hash_text(&map));
    assert_eq!(res.public_paths[1], map_path);
    let expected = format!("code();\n//# sourceMappingURL={}\n", map_path).into_bytes();
    assert_eq!(res.assets[0], expected);
    assert_eq!(res.public_paths[0], format!("bundle.{}.js", hash_text(&expected)));
}

#[test]
fn path_reference_to_unhashed_asset() {
    let s = setup(vec![def("index.html", true, PathHash::Unhashed), def("logo.svg", false, PathHash::Unhashed)]);
    let raws = vec![b"<img src=\"{{: path:logo.svg :}}\">".to_vec(), b"<svg/>".to_vec()];
    let res = resolve(&s, &raws, &no_vars()).unwrap();
    assert_eq!(res.assets[0], b"<img src=\"logo.svg\">".to_vec());
}

#[test]
fn building_twice_gives_the_same_result() {
    let s = setup(vec![
        def("index.html", true, PathHash::Auto),
        def("style.css", false, PathHash::Auto),
    ]);
    let raws = vec![b"<link href=\"{{: path:style.css :}}\">{{: var:title :}}".to_vec(), b"body{}".to_vec()];
    let vars = vec![("title".to_string(), "Hi".to_string())];
    let a = resolve(&s, &raws, &vars).unwrap();
    let b = resolve(&s, &raws, &vars).unwrap();
    assert_eq!(a.assets, b.assets);
    assert_eq!(a.public_paths, b.public_paths);
}

#[test]
fn variables_are_inserted() {
    let s = setup(vec![def("a.txt", true, PathHash::Unhashed)]);
    let vars = vec![("name".to_string(), "World".to_string()), ("name".to_string(), "Other".to_string())];
    let res = resolve(&s, &vec![b"Hello {{: var:name :}}!".to_vec()], &vars).unwrap();
    assert_eq!(res.assets[0], b"Hello World!".to_vec());
}

#[test]
fn missing_variable_is_an_error() {
    let s = setup(vec![def("a.txt", true, PathHash::Unhashed)]);
    match resolve(&s, &vec![b"{{: var:nope :}}".to_vec()], &no_vars()) {
        Err(ResolveError::MissingVariable { key, file }) => {
            assert_eq!(key, "nope");
            assert_eq!(file, "a.txt");
        }
        _ => panic!("expected a missing variable"),
    }
}

#[test]
fn unresolved_references_are_errors() {
    let s = setup(vec![def("a.txt", true, PathHash::Unhashed)]);
    match resolve(&s, &vec![b"{{: include:nope.txt :}}".to_vec()], &no_vars()) {
        Err(ResolveError::UnresolvedInclude { in_file, included }) => {
            assert_eq!(in_file, "a.txt");
            assert_eq!(included, "nope.txt");
        }
        _ => panic!("expected an unresolved include"),
    }
    match resolve(&s, &vec![b"{{: path:nope.txt :}}".to_vec()], &no_vars()) {
        Err(ResolveError::UnresolvedPath { in_file, referenced }) => {
            assert_eq!(in_file, "a.txt");
            assert_eq!(referenced, "nope.txt");
        }
        _ => panic!("expected an unresolved path"),
    }
}

#[test]
fn bad_fragment_is_a_template_error() {
    let s = setup(vec![def("a.txt", true, PathHash::Unhashed)]);
    match resolve(&s, &vec![b"{{: what:x :}}".to_vec()], &no_vars()) {
        Err(ResolveError::Template { file, .. }) => assert_eq!(file, "a.txt"),
        _ => panic!("expected a template error"),
    }
}

#[test]
fn non_templates_are_not_scanned() {
    let s = setup(vec![def("a.txt", false, PathHash::Unhashed)]);
    let raw = b"{{: include:nope :}}".to_vec();
    let res = resolve(&s, &vec![raw.clone()], &no_vars()).unwrap();
    assert_eq!(res.assets[0], raw);
}

#[test]
fn prepend_and_append_surround_the_content() {
    let mut d = def("a.txt", false, PathHash::Unhashed);
    d.prepend = Some(b"<<".to_vec());
    d.append = Some(b">>".to_vec());
    assert_eq!(raw_content(&d, b"x"), b"<<x>>".to_vec());
    let s = setup(vec![d]);
    assert_eq!(s.path_to_id("a.txt").map(|i| i.0), Some(0));
    assert!(s.path_to_id("b.txt").is_none());
    assert!(s.asset_by_path("a.txt").unwrap().serve);
}

#[test]
fn single_asset_loads_only_what_it_needs() {
    let s = setup(vec![
        def("a.txt", true, PathHash::Unhashed),
        def("foo.txt", true, PathHash::Unhashed),
        def("unrelated.txt", true, PathHash::Unhashed),
    ]);
    let files = [
        b"a({{: include:foo.txt :}})\n".to_vec(),
        b"foo\n".to_vec(),
        b"{{: var:missing :}}".to_vec(),
    ];
    let mut walk = SingleAssetWalk::new(&s, "a.txt").unwrap();
    let mut asked = vec![];
    while let Some(id) = walk.next_to_load() {
        asked.push(id.0);
        walk.loaded(&s, id, files[id.0 as usize].clone()).unwrap();
    }
    assert_eq!(asked, vec![0, 1]);
    assert_eq!(walk.finish(&s, &no_vars()).unwrap(), b"a(foo\n)\n".to_vec());
    assert!(SingleAssetWalk::new(&s, "nope.txt").is_none());
}

#[test]
fn single_asset_walk_reports_bad_fragments() {
    let s = setup(vec![def("a.txt", true, PathHash::Unhashed)]);
    let mut walk = SingleAssetWalk::new(&s, "a.txt").unwrap();
    let id = walk.next_to_load().unwrap();
    match walk.loaded(&s, id, b"{{: include:missing :}}".to_vec()) {
        Err(ResolveError::UnresolvedInclude { in_file, included }) => {
            assert_eq!(in_file, "a.txt");
            assert_eq!(included, "missing");
        }
        _ => panic!("expected an unresolved include"),
    }
}
