use wbooks::language::parse_accept_language;
use wbooks::registry::{same_bytes, Registry};
use wbooks::route::{decode_percent, route, split_bytes, Method, Route};
use wbooks::server::greet;

#[test]
fn accept_language_candidates() {
    let c = parse_accept_language(b"fr-CH, fr;q=0.9,EN ;q=0.8, , *");
    let want: Vec<Vec<u8>> = vec![b"fr-ch".to_vec(), b"fr".to_vec(), b"en".to_vec(), vec![], b"*".to_vec()];
    assert_eq!(c, want);
    assert_eq!(parse_accept_language(b""), vec![Vec::<u8>::new()]);
}

#[test]
fn percent_decoding() {
    assert_eq!(decode_percent(b"%41b%zz%4"), b"Ab%zz%4".to_vec());
    assert_eq!(decode_percent(b"a%2fb%2F"), b"a/b/".to_vec());
    assert_eq!(decode_percent(b""), Vec::<u8>::new());
}

#[test]
fn splitting() {
    let want: Vec<Vec<u8>> = vec![b"".to_vec(), b"a".to_vec(), b"".to_vec(), b"b".to_vec()];
    assert_eq!(split_bytes(b"/a//b", b'/'), want);
    assert_eq!(split_bytes(b"", b'/'), vec![Vec::<u8>::new()]);
}

#[test]
fn byte_comparison() {
    assert!(same_bytes(b"fr", b"fr"));
    assert!(!same_bytes(b"fr", b"fr-ca"));
    assert!(!same_bytes(b"en", b"fr"));
}

#[test]
fn routing_decisions() {
    assert!(matches!(route(Method::Get, b"/api/hello/World"), Route::Greeting(ref n) if n == "World"));
    assert!(matches!(route(Method::Delete, b"/api/hello/World"), Route::MethodNotAllowed));
    assert!(matches!(route(Method::Head, b"/.."), Route::NotFound));
    assert!(matches!(route(Method::Head, b"/..foo"), Route::MethodNotAllowed));
    assert!(matches!(route(Method::Get, b"/a%2Fb"), Route::NotFound));
    assert!(matches!(route(Method::Get, b"/a/%FF"), Route::NotFound));
}

#[test]
fn registry_lookup() {
    let mut reg = Registry::with_source_locale("en".to_string());
    assert_eq!(reg.len(), 1);
    assert!(!reg.add_compiled("fr".to_string(), b"not a catalog"));
    assert_eq!(reg.len(), 1);
    let other = Registry::with_source_locale("de".to_string());
    let _ = other.default();
    reg.add("pt-br".to_string(), gettext::Catalog::empty());
    assert_eq!(reg.len(), 2);
    assert_eq!(reg.position(b"en"), Some(0));
    assert_eq!(reg.position(b"pt-br"), Some(1));
    assert_eq!(reg.position(b"pt"), None);
    assert!(reg.for_locale(b"pt-br").is_some());
    assert!(reg.for_locale(b"fr").is_none());
    assert_eq!(reg.negotiate(b"pt-BR"), 1);
    assert_eq!(reg.negotiate(b"pt"), 0);
    assert_eq!(reg.negotiate(b"en-GB"), 0);
    let _ = reg.catalog_at(1);
    let _ = reg.catalog_for(b"pt-br");
}

#[test]
fn greeting_in_source_language() {
    let reg = Registry::with_source_locale("en".to_string());
    assert_eq!(greet(reg.default(), "World"), Some("Hello, World!".to_string()));
    assert_eq!(greet(reg.default(), ""), Some("Hello, !".to_string()));
}
