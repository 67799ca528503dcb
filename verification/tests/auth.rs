use ciderhub::auth::{is_authenticated, login, require_auth, safe_next, LoginForm, LoginOutcome};

const SITE: &str = "orchard";

#[test]
fn auth_cookie_is_recognized_among_other_cookies() {
    assert!(is_authenticated(Some("ciderhub_auth=orchard"), SITE));
    assert!(is_authenticated(Some("theme=dark; ciderhub_auth=orchard"), SITE));
    assert!(is_authenticated(Some("  ciderhub_auth=orchard  ;x=y"), SITE));
    assert!(!is_authenticated(Some("ciderhub_auth=wrong"), SITE));
    assert!(!is_authenticated(Some("ciderhub_auth=orchard2"), SITE));
    assert!(!is_authenticated(Some("xciderhub_auth=orchard"), SITE));
    assert!(!is_authenticated(Some(""), SITE));
    assert!(!is_authenticated(None, SITE));
}

#[test]
fn the_configured_password_decides() {
    assert!(is_authenticated(Some("ciderhub_auth=pear"), "pear"));
    assert!(!is_authenticated(Some("ciderhub_auth=pear"), SITE));
    assert!(!is_authenticated(Some("ciderhub_auth=orchard"), "pear"));
}

#[test]
fn only_single_slash_paths_are_followed() {
    assert_eq!(safe_next(Some("/batches/3".to_string())), "/batches/3");
    assert_eq!(safe_next(Some("/".to_string())), "/");
    assert_eq!(safe_next(Some("//evil.example".to_string())), "/");
    assert_eq!(safe_next(Some("https://evil.example".to_string())), "/");
    assert_eq!(safe_next(Some(String::new())), "/");
    assert_eq!(safe_next(None), "/");
}

#[test]
fn redirect_target_is_always_local() {
    for next in ["", "/", "//x", "/a//b", "http://x", "x/", "/ok"] {
        let target = safe_next(Some(next.to_string()));
        assert!(target.starts_with('/') && !target.starts_with("//"), "{next}");
    }
}

#[test]
fn public_paths_pass_without_cookie() {
    assert!(require_auth("/login", None, Some("/login"), SITE).is_none());
    assert!(require_auth("/healthz", None, None, SITE).is_none());
    assert!(require_auth("/static/app.css", None, None, SITE).is_none());
    assert!(require_auth("/staticx", None, None, SITE).is_some());
}

#[test]
fn locked_page_remembers_where_the_visitor_was_going() {
    let page = require_auth("/batches", None, Some("/batches?season=2"), SITE).unwrap();
    assert_eq!(page.next, "/batches?season=2");
    assert!(!page.error);
    let page = require_auth("/batches", Some("ciderhub_auth=nope"), None, SITE).unwrap();
    assert_eq!(page.next, "/");
    assert!(require_auth("/batches", Some("ciderhub_auth=orchard"), None, SITE).is_none());
}

#[test]
fn right_password_redirects_and_sets_the_cookie() {
    let out = login(LoginForm { password: "orchard".to_string(), next: Some("/batches".to_string()) }, SITE);
    match out {
        LoginOutcome::Redirect { location, set_cookie } => {
            assert_eq!(location, "/batches");
            assert_eq!(set_cookie, "ciderhub_auth=orchard; Path=/; HttpOnly; SameSite=Lax; Max-Age=31536000");
        }
        LoginOutcome::Locked(_) => panic!("expected a redirect"),
    }
}

#[test]
fn wrong_password_shows_the_locked_page_again() {
    let out = login(LoginForm { password: "Orchard".to_string(), next: Some("//evil".to_string()) }, SITE);
    match out {
        LoginOutcome::Locked(page) => {
            assert!(page.error);
            assert_eq!(page.next, "/");
        }
        LoginOutcome::Redirect { .. } => panic!("expected the locked page"),
    }
}

#[test]
fn login_cookie_lets_the_visitor_in() {
    let out = login(LoginForm { password: "orchard".to_string(), next: None }, SITE);
    let LoginOutcome::Redirect { set_cookie, .. } = out else { panic!("expected a redirect") };
    let pair = set_cookie.split(';').next().unwrap();
    assert!(is_authenticated(Some(pair), SITE));
    assert!(is_authenticated(Some(&format!("theme=dark; {pair}")), SITE));
    assert!(require_auth("/", Some(pair), None, SITE).is_none());
}

#[test]
fn a_cookie_with_a_wrong_password_is_refused() {
    let out = login(LoginForm { password: "wrong".to_string(), next: None }, SITE);
    assert!(matches!(out, LoginOutcome::Locked(_)));
    assert!(!is_authenticated(Some("ciderhub_auth=wrong"), SITE));
    assert!(require_auth("/", Some("ciderhub_auth=wrong"), None, SITE).is_some());
}
