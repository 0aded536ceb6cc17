use reinda::template::{find, Error, Fragment, FragmentSpans, Template, Appender};

fn dummy_value(f: &Fragment) -> Vec<u8> {
    let mut out = Vec::new();
    match f {
        Fragment::Include(p) => {
            out.extend_from_slice(b"i-");
            out.extend_from_slice(p.to_uppercase().as_bytes());
        }
        Fragment::Path(p) => {
            out.extend_from_slice(b"p-");
            out.extend(p.bytes().rev());
        }
        Fragment::Var(k) => {
            out.extend_from_slice(b"v-");
            out.extend_from_slice(k.to_lowercase().as_bytes());
        }
    }
    out
}

fn render(input: &[u8]) -> Vec<u8> {
    let template = Template::parse(input.to_vec()).expect("failed to parse");
    let values: Vec<Vec<u8>> = template.fragments().into_iter().map(dummy_value).collect();
    template.render(&values)
}

#[test]
fn render_no_fragments() {
    let s = b"foo, bar, baz";
    let res = render(s);
    assert_eq!(res, s as &[_]);
}

#[test]
fn render_simple_fragments() {
    assert_eq!(render(b"{{: include:banana :}}"), b"i-BANANA" as &[u8]);
    assert_eq!(render(b"foo {{: path:cat :}}baz"), b"foo p-tacbaz" as &[u8]);
    assert_eq!(
        render(b"foo {{: include:cat :}}baz{{: var:DOG :}}"),
        b"foo i-CATbazv-dog" as &[u8],
    );
}

#[test]
fn render_ignored_fragments() {
    assert_eq!(render(b"x{{: a\nb :}}y"), b"x{{: a\nb :}}y" as &[u8]);
    assert_eq!(render(b"x{{: a\n {{: include:kiwi :}}y"), b"x{{: a\n i-KIWIy" as &[u8]);

    let long = b"foo {:: \
        abcdefghijklmnopqrstuvwxyabcdefghijklmnopqrstuvwxy\
        abcdefghijklmnopqrstuvwxyabcdefghijklmnopqrstuvwxy\
        abcdefghijklmnopqrstuvwxyabcdefghijklmnopqrstuvwxy\
        abcdefghijklmnopqrstuvwxyabcdefghijklmnopqrstuvwxy\
        abcdefghijklmnopqrstuvwxyabcdefghijklmnopqrstuvwxy\
        abcdefghijklmnopqrstuvwxyabcdefghijklmnopqrstuvwxy\
        yo ::} bar\
    " as &[u8];
    assert_eq!(render(long), long);
}

#[test]
fn render_without_fragments_keeps_the_buffer() {
    let input = b"plain text {{ not a fragment }}".to_vec();
    let ptr = input.as_ptr();
    let t = Template::parse(input).unwrap();
    let out = t.render(&vec![]);
    assert_eq!(out.as_ptr(), ptr);
}

#[test]
fn fragment_length_limit() {
    // 256 bytes with both markers is accepted, 257 is not.
    let name = "a".repeat(256 - 8 - "var:".len());
    let ok = format!("{{{{: var:{} :}}}}", name);
    assert_eq!(ok.len(), 256);
    assert_eq!(render(ok.as_bytes()), format!("v-{}", name).into_bytes());
    let name = "a".repeat(257 - 8 - "var:".len());
    let too_long = format!("{{{{: var:{} :}}}}", name);
    assert_eq!(render(too_long.as_bytes()), too_long.into_bytes());
}

#[test]
fn values_are_not_scanned_again() {
    let t = Template::parse(b"<{{: var:x :}}>".to_vec()).unwrap();
    let out = t.render(&vec![b"{{: include:y :}}".to_vec()]);
    assert_eq!(out, b"<{{: include:y :}}>".to_vec());
}

#[test]
fn end_marker_does_not_share_bytes_with_start_marker() {
    assert_eq!(render(b"{{: :}}"), b"{{: :}}".to_vec());
}

#[test]
fn fragment_errors() {
    assert!(matches!(
        Template::parse(b"{{: foo:bar :}}".to_vec()),
        Err(Error::UnknownTemplateSpecifier(s)) if s == "foo"
    ));
    assert!(matches!(
        Template::parse(b"{{: nothing :}}".to_vec()),
        Err(Error::UnknownTemplateSpecifier(s)) if s == "nothing"
    ));
    assert!(matches!(
        Template::parse(b"{{: \xff :}}".to_vec()),
        Err(Error::NonUtf8TemplateFragment(b)) if b == vec![0xffu8]
    ));
}

#[test]
fn fragment_parse_trims() {
    assert_eq!(Fragment::parse(b"  path:a.js\t").unwrap(), Fragment::Path("a.js".into()));
    assert_eq!(Fragment::parse(b"include:x").unwrap().as_include(), Some(&"x".to_string()));
    assert_eq!(Fragment::parse(b"var:x").unwrap().as_include(), None);
}

#[test]
fn spans_and_find() {
    let input = b"a{{: kk   :}}b";
    let mut spans = FragmentSpans::new(input);
    assert_eq!(spans.next(), Some((5, 9)));
    assert_eq!(spans.next(), None);
    assert_eq!(find(b"hello", b"ll"), Some(2));
    assert_eq!(find(b"hello", b"x"), None);
}

#[test]
fn appender_appends() {
    let mut a = Appender::new();
    a.append(b"ab");
    a.append(b"c");
    assert_eq!(a.into_bytes(), b"abc".to_vec());
}

#[test]
fn fragment_parse_trims_unicode_white_space() {
    let text = "\u{3000}var:x\u{a0}";
    assert_eq!(Fragment::parse(text.as_bytes()).unwrap(), Fragment::Var("x".into()));
}

#[test]
fn first_failing_fragment_is_reported() {
    assert!(matches!(
        Template::parse(b"{{: var:ok :}} {{: one:x :}} {{: two:y :}}".to_vec()),
        Err(Error::UnknownTemplateSpecifier(s)) if s == "one"
    ));
}
