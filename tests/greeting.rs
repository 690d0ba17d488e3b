use wbooks::registry::Registry;
use wbooks::route::Method;
use wbooks::server::{handle, Reply};

fn mo_entries(entries: &[(&str, &str)]) -> Vec<u8> {
    let n = entries.len() as u32;
    let otable = 28u32;
    let ttable = otable + 8 * n;
    let mut strings_off = ttable + 8 * n;
    let mut head: Vec<u8> = Vec::new();
    for v in [0x950412deu32, 0, n, otable, ttable, 0, strings_off] {
        head.extend_from_slice(&v.to_le_bytes());
    }
    let mut ids: Vec<u8> = Vec::new();
    let mut trs: Vec<u8> = Vec::new();
    let mut strings: Vec<u8> = Vec::new();
    for (id, _) in entries {
        ids.extend_from_slice(&(id.len() as u32).to_le_bytes());
        ids.extend_from_slice(&strings_off.to_le_bytes());
        strings.extend_from_slice(id.as_bytes());
        strings.push(0);
        strings_off += id.len() as u32 + 1;
    }
    for (_, tr) in entries {
        trs.extend_from_slice(&(tr.len() as u32).to_le_bytes());
        trs.extend_from_slice(&strings_off.to_le_bytes());
        strings.extend_from_slice(tr.as_bytes());
        strings.push(0);
        strings_off += tr.len() as u32 + 1;
    }
    head.extend_from_slice(&ids);
    head.extend_from_slice(&trs);
    head.extend_from_slice(&strings);
    head
}

fn mo_catalog(id: &str, translation: &str) -> Vec<u8> {
    mo_entries(&[(id, translation)])
}

fn registry() -> Registry {
    let mut reg = Registry::with_source_locale("en".to_string());
    assert!(reg.add_compiled("fr".to_string(), &mo_catalog("Hello, {}!", "Bonjour, {} !")));
    reg
}

fn text(r: Reply) -> String {
    match r {
        Reply::Text(t) => t,
        other => panic!("expected a text reply, got {:?}", other),
    }
}

#[test]
fn hello_world_without_header() {
    let reg = registry();
    let r = handle(&reg, Method::Get, b"/api/hello/World", b"");
    assert_eq!(text(r), "Hello, World!");
}

#[test]
fn hello_monde_in_french() {
    let reg = registry();
    let r = handle(&reg, Method::Get, b"/api/hello/Monde", b"fr");
    assert_eq!(text(r), "Bonjour, Monde !");
}

#[test]
fn unsupported_language_falls_back() {
    let reg = registry();
    let r = handle(&reg, Method::Get, b"/api/hello/World", b"de");
    assert_eq!(text(r), "Hello, World!");
}

#[test]
fn post_to_greeting_is_not_allowed() {
    let reg = registry();
    let r = handle(&reg, Method::Post, b"/api/hello/World", b"");
    assert!(matches!(r, Reply::MethodNotAllowed));
}

#[test]
fn index_html_is_served_from_static_root() {
    let reg = registry();
    match handle(&reg, Method::Get, b"/index.html", b"") {
        Reply::File(segs) => assert_eq!(segs, vec!["index.html".to_string()]),
        other => panic!("expected a file reply, got {:?}", other),
    }
}

#[test]
fn parent_directory_is_not_found() {
    let reg = registry();
    let r = handle(&reg, Method::Get, b"/../etc/passwd", b"");
    assert!(matches!(r, Reply::NotFound));
}

#[test]
fn encoded_parent_directory_is_not_found() {
    let reg = registry();
    let r = handle(&reg, Method::Get, b"/public/%2e%2e/%2E%2E/etc/passwd", b"");
    assert!(matches!(r, Reply::NotFound));
    let r = handle(&reg, Method::Get, b"/a%2F..%2F..%2Fsecret", b"");
    assert!(matches!(r, Reply::NotFound));
}

#[test]
fn backslash_is_an_ordinary_byte() {
    let reg = registry();
    match handle(&reg, Method::Get, b"/a%5Cb", b"") {
        Reply::File(segs) => assert_eq!(segs, vec!["a\\b".to_string()]),
        other => panic!("expected a file reply, got {:?}", other),
    }
}

#[test]
fn dot_dot_prefix_is_an_ordinary_name() {
    let reg = registry();
    match handle(&reg, Method::Get, b"/..foo/./x", b"") {
        Reply::File(segs) => assert_eq!(segs, vec!["..foo".to_string(), ".".to_string(), "x".to_string()]),
        other => panic!("expected a file reply, got {:?}", other),
    }
}

#[test]
fn climbing_above_root_is_not_found() {
    let reg = registry();
    for p in [&b"/../x"[..], b"/a/../../x", b"/%2e%2e/etc/passwd", b"/a/%2E./x/../../.."] {
        assert!(matches!(handle(&reg, Method::Get, p, b""), Reply::NotFound));
        assert!(matches!(handle(&reg, Method::Post, p, b""), Reply::NotFound));
    }
}

#[test]
fn dots_in_greeting_name_are_text() {
    let reg = registry();
    let r = handle(&reg, Method::Get, b"/api/hello/%2e%2e", b"");
    assert_eq!(text(r), "Hello, ..!");
}

#[test]
fn supported_locales_are_english_then_french() {
    let reg = Registry::supported(&mo_catalog("Hello, {}!", "Bonjour, {} !")).expect("catalog");
    assert_eq!(reg.len(), 2);
    assert_eq!(reg.position(b"en"), Some(0));
    assert_eq!(reg.position(b"fr"), Some(1));
    assert_eq!(text(handle(&reg, Method::Get, b"/api/hello/Monde", b"fr")), "Bonjour, Monde !");
    assert_eq!(text(handle(&reg, Method::Get, b"/api/hello/World", b"")), "Hello, World!");
    assert!(Registry::supported(b"").is_none());
}

#[test]
fn catalog_plural_expression_is_not_read() {
    let mut reg = Registry::with_source_locale("en".to_string());
    let bad_plural = mo_entries(&[
        ("", "Content-Type: text/plain; charset=UTF-8\nPlural-Forms: nplurals=2; plural=(;\n"),
        ("Hello, {}!", "Salut, {} !"),
    ]);
    assert!(reg.add_compiled("fr".to_string(), &bad_plural));
    let non_ascii = mo_entries(&[
        ("", "Plural-Forms: nplurals=2; plural=\u{e9}n != 1;\n"),
        ("Hello, {}!", "Ciao, {}!"),
    ]);
    assert!(reg.add_compiled("it".to_string(), &non_ascii));
    assert_eq!(text(handle(&reg, Method::Get, b"/api/hello/A", b"fr")), "Salut, A !");
    assert_eq!(text(handle(&reg, Method::Get, b"/api/hello/A", b"it")), "Ciao, A!");
}

#[test]
fn post_to_static_path_is_not_allowed() {
    let reg = registry();
    let r = handle(&reg, Method::Post, b"/index.html", b"");
    assert!(matches!(r, Reply::MethodNotAllowed));
}

#[test]
fn static_path_drops_empty_segments() {
    let reg = registry();
    match handle(&reg, Method::Get, b"/css//site%20main.css/", b"") {
        Reply::File(segs) => assert_eq!(segs, vec!["css".to_string(), "site main.css".to_string()]),
        other => panic!("expected a file reply, got {:?}", other),
    }
    match handle(&reg, Method::Get, b"/", b"") {
        Reply::File(segs) => assert!(segs.is_empty()),
        other => panic!("expected a file reply, got {:?}", other),
    }
}

#[test]
fn same_request_gives_same_body() {
    let reg = registry();
    let a = text(handle(&reg, Method::Get, b"/api/hello/Monde", b"fr-CA, en;q=0.5"));
    let b = text(handle(&reg, Method::Get, b"/api/hello/Monde", b"fr-CA, en;q=0.5"));
    assert_eq!(a.as_bytes(), b.as_bytes());
    assert_eq!(a, "Bonjour, Monde !");
}

#[test]
fn name_is_percent_decoded() {
    let reg = registry();
    let r = handle(&reg, Method::Get, b"/api/hello/J%C3%BCrgen%20M", b"");
    assert_eq!(text(r), "Hello, J\u{fc}rgen M!");
}

#[test]
fn name_is_not_markup() {
    let reg = registry();
    let r = handle(&reg, Method::Get, b"/api/hello/%3Cb%3E", b"fr");
    assert_eq!(text(r), "Bonjour, <b> !");
}

#[test]
fn invalid_utf8_name_is_not_found() {
    let reg = registry();
    let r = handle(&reg, Method::Get, b"/api/hello/%FF", b"");
    assert!(matches!(r, Reply::NotFound));
}

#[test]
fn greeting_path_needs_one_segment() {
    let reg = registry();
    match handle(&reg, Method::Get, b"/api/hello/a/b", b"") {
        Reply::File(segs) => assert_eq!(segs.len(), 4),
        other => panic!("expected a file reply, got {:?}", other),
    }
    match handle(&reg, Method::Get, b"/api/hello/", b"") {
        Reply::File(segs) => assert_eq!(segs, vec!["api".to_string(), "hello".to_string()]),
        other => panic!("expected a file reply, got {:?}", other),
    }
}

#[test]
fn language_preferences_in_order() {
    let reg = registry();
    assert_eq!(text(handle(&reg, Method::Get, b"/api/hello/X", b"de, fr;q=0.8, en;q=0.5")), "Bonjour, X !");
    assert_eq!(text(handle(&reg, Method::Get, b"/api/hello/X", b"en, fr")), "Hello, X!");
    assert_eq!(text(handle(&reg, Method::Get, b"/api/hello/X", b" FR-ca ; q=0.9")), "Bonjour, X !");
    assert_eq!(text(handle(&reg, Method::Get, b"/api/hello/X", b",;,*")), "Hello, X!");
}

#[test]
fn broken_translation_fails() {
    let mut reg = Registry::with_source_locale("en".to_string());
    assert!(reg.add_compiled("xx".to_string(), &mo_catalog("Hello, {}!", "Hallo {!")));
    let r = handle(&reg, Method::Get, b"/api/hello/X", b"xx");
    assert!(matches!(r, Reply::Failed));
}
