use blackfiles::auth::Auth;
use blackfiles::auth::LoginRequest;
use blackfiles::auth::login;
use blackfiles::auth::check_auth;
use blackfiles::files::FileMeta;
use blackfiles::files::download_decision;
use blackfiles::shared::ServiceError;

fn strings(parts: &[&str]) -> Vec<String> {
    parts.iter().map(|p| String::from(*p)).collect()
}

#[test]
fn login_with_wrong_token_is_unauthorized_and_sets_no_cookie() {
    let secret = Some(String::from("s3cret"));
    let reply = login(&secret, &LoginRequest { token: String::from("nope") });
    assert_eq!(reply.status, 401);
    assert!(!reply.response.success);
    assert!(reply.set_cookie.is_none());
}

#[test]
fn login_with_correct_token_sets_cookie_and_check_succeeds() {
    let secret = Some(String::from("s3cret"));
    let reply = login(&secret, &LoginRequest { token: String::from("s3cret") });
    assert_eq!(reply.status, 200);
    assert!(reply.response.success);
    let cookie = reply.set_cookie;
    assert_eq!(cookie.as_deref(), Some("s3cret"));

    let auth = Auth::from_request(&cookie, &secret);
    let auth = auth.expect("matching cookie authenticates");
    let checked = check_auth(auth);
    assert!(checked.success);
}

#[test]
fn login_without_configured_secret_is_a_server_fault() {
    let reply = login(&None, &LoginRequest { token: String::from("anything") });
    assert_eq!(reply.status, 500);
    assert!(!reply.response.success);
    assert!(reply.set_cookie.is_none());
    assert_eq!(ServiceError::ServerMisconfigured.status_code(), 500);
}

#[test]
fn check_refuses_missing_or_mismatched_cookie() {
    let secret = Some(String::from("s3cret"));
    assert!(Auth::from_request(&None, &secret).is_none());
    assert!(Auth::from_request(&Some(String::from("wrong")), &secret).is_none());
    assert!(Auth::from_request(&Some(String::from("s3cret")), &None).is_none());
}

#[test]
fn download_of_hidden_file_is_forbidden_never_not_found() {
    let meta = Some(FileMeta { is_file: true, size: 5 });
    let root = Some(strings(&["srv", "storage"]));
    let target = Some(strings(&["srv", "storage", "docs", ".secret"]));
    let r = download_decision(&meta, &root, &target);
    assert!(matches!(r, Err(ServiceError::Escaped)));
    assert_eq!(ServiceError::Escaped.status_code(), 403);
}

#[test]
fn download_of_missing_or_non_regular_target_is_not_found() {
    let root = Some(strings(&["srv", "storage"]));
    let target = Some(strings(&["srv", "storage", "docs"]));
    let r = download_decision(&None, &root, &target);
    assert!(matches!(r, Err(ServiceError::NotFound)));

    let dir_meta = Some(FileMeta { is_file: false, size: 0 });
    let r = download_decision(&dir_meta, &root, &target);
    assert!(matches!(r, Err(ServiceError::NotFound)));

    let meta = Some(FileMeta { is_file: true, size: 1 });
    let r = download_decision(&meta, &root, &None);
    assert!(matches!(r, Err(ServiceError::NotFound)));
}

#[test]
fn download_escaping_the_root_is_forbidden() {
    let meta = Some(FileMeta { is_file: true, size: 1 });
    let root = Some(strings(&["srv", "storage"]));
    let target = Some(strings(&["etc", "passwd"]));
    let r = download_decision(&meta, &root, &target);
    assert!(matches!(r, Err(ServiceError::Escaped)));
}

#[test]
fn download_of_confined_regular_file_reports_its_exact_size() {
    let meta = Some(FileMeta { is_file: true, size: 10 });
    let root = Some(strings(&["srv", "storage"]));
    let target = Some(strings(&["srv", "storage", "docs", "a.txt"]));
    let r = download_decision(&meta, &root, &target);
    assert!(matches!(r, Ok(10)));
}

#[test]
fn download_with_unresolvable_root_is_an_internal_fault() {
    let meta = Some(FileMeta { is_file: true, size: 1 });
    let target = Some(strings(&["srv", "storage", "docs", "a.txt"]));
    let r = download_decision(&meta, &None, &target);
    assert!(matches!(r, Err(ServiceError::InternalIO)));
}
