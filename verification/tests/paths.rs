use blackfiles::shared::sanitize_path;
use blackfiles::shared::sanitize_request;
use blackfiles::shared::path_to_web_string;
use blackfiles::shared::is_contained;
use blackfiles::shared::verify_contained;
use blackfiles::shared::ServiceError;

fn strings(parts: &[&str]) -> Vec<String> {
    parts.iter().map(|p| String::from(*p)).collect()
}

#[test]
fn sanitize_rejects_parent_traversal() {
    assert!(sanitize_path("../etc").is_none());
    assert!(sanitize_path("..").is_none());
    assert!(sanitize_path("docs/../../etc").is_none());
    let r = sanitize_request("../etc");
    assert!(matches!(r, Err(ServiceError::InvalidPathSyntax)));
    assert_eq!(ServiceError::InvalidPathSyntax.status_code(), 400);
}

#[test]
fn sanitize_rejects_dot_components() {
    assert!(sanitize_path(".").is_none());
    assert!(sanitize_path("a/./b").is_none());
    assert!(sanitize_path("./a").is_none());
}

#[test]
fn sanitize_rejects_absolute_and_null_and_empty_components() {
    assert!(sanitize_path("/etc/passwd").is_none());
    assert!(sanitize_path("/").is_none());
    assert!(sanitize_path("a\0b").is_none());
    assert!(sanitize_path("a/\0").is_none());
    assert!(sanitize_path("a//b").is_none());
    assert!(sanitize_path("a/").is_none());
}

#[test]
fn sanitize_empty_input_is_root_only() {
    let root = sanitize_path("").expect("empty input denotes the root");
    assert!(root.is_root());
    assert_eq!(path_to_web_string(&root), "");

    let p = sanitize_path("docs").expect("normal path accepted");
    assert!(!p.is_root());
    assert_eq!(p.components().len(), 1);
}

#[test]
fn sanitize_accepts_normal_paths_and_keeps_components() {
    let p = sanitize_path("docs/a.txt").expect("normal path accepted");
    let comps = p.components();
    assert_eq!(comps.len(), 2);
    assert_eq!(comps[0], "docs");
    assert_eq!(comps[1], "a.txt");
    assert_eq!(path_to_web_string(&p), "docs/a.txt");
}

#[test]
fn sanitize_accepts_hidden_names() {
    // Hidden entries are rejected later, by the listing and download logic,
    // not by the syntactic sanitizer.
    let p = sanitize_path("docs/.secret").expect("syntactically normal");
    assert_eq!(path_to_web_string(&p), "docs/.secret");
}

#[test]
fn containment_is_component_wise_not_string_prefix() {
    let root = strings(&["data", "foo"]);
    assert!(!is_contained(&root, &strings(&["data", "foobar"])));
    assert!(!is_contained(&root, &strings(&["data", "foobar", "x"])));
    assert!(is_contained(&root, &strings(&["data", "foo"])));
    assert!(is_contained(&root, &strings(&["data", "foo", "x"])));
    assert!(!is_contained(&root, &strings(&["data"])));
}

#[test]
fn containment_escape_is_forbidden_never_not_found() {
    let root = Some(strings(&["srv", "storage"]));
    let outside = Some(strings(&["etc", "passwd"]));
    let r = verify_contained(&root, &outside);
    assert!(matches!(r, Err(ServiceError::Escaped)));
    assert_eq!(ServiceError::Escaped.status_code(), 403);
}

#[test]
fn containment_resolution_failures() {
    let root = Some(strings(&["srv", "storage"]));
    let r = verify_contained(&root, &None);
    assert!(matches!(r, Err(ServiceError::NotFound)));

    let target = Some(strings(&["srv", "storage", "docs"]));
    let r = verify_contained(&None, &target);
    assert!(matches!(r, Err(ServiceError::InternalIO)));
}

#[test]
fn sanitize_then_containment_round_trip() {
    // A sanitized path joined below the root resolves inside the root when
    // no link indirection intervenes, so containment accepts it.
    let p = sanitize_path("docs/a.txt").expect("normal path accepted");
    let root = strings(&["srv", "storage"]);
    let mut target = root.clone();
    for c in p.components() {
        target.push(c.clone());
    }
    assert!(is_contained(&root, &target));
    let r = verify_contained(&Some(root), &Some(target));
    assert!(matches!(r, Ok(())));
}

#[test]
fn status_codes_follow_the_taxonomy() {
    assert_eq!(ServiceError::InvalidPathSyntax.status_code(), 400);
    assert_eq!(ServiceError::Unauthorized.status_code(), 401);
    assert_eq!(ServiceError::Escaped.status_code(), 403);
    assert_eq!(ServiceError::NotFound.status_code(), 404);
    assert_eq!(ServiceError::ServerMisconfigured.status_code(), 500);
    assert_eq!(ServiceError::InternalIO.status_code(), 500);
}
