use fredwork::request::Protocols;
use fredwork::router::{
    first_found, register_end_point, register_static_folder, resolve, static_fallback,
    static_paths, Action, Routes,
};

#[test]
fn registered_get_route_is_invoked() {
    let mut r: Routes<u32> = Routes::new();
    register_end_point(&mut r, Protocols::GET, "/a", 7);
    assert!(matches!(resolve(&r, Protocols::GET, "/a"), Action::Invoke(7)));
}

#[test]
fn later_registration_replaces() {
    let mut r: Routes<u32> = Routes::new();
    register_end_point(&mut r, Protocols::GET, "/a", 1);
    register_end_point(&mut r, Protocols::GET, "/a", 2);
    assert!(matches!(resolve(&r, Protocols::GET, "/a"), Action::Invoke(2)));
}

#[test]
fn get_miss_without_static_or_wildcard_gets_no_response() {
    let mut r: Routes<u32> = Routes::new();
    register_end_point(&mut r, Protocols::GET, "/a", 1);
    assert!(matches!(resolve(&r, Protocols::GET, "/b"), Action::SearchStatic));
    assert!(matches!(static_fallback(&r, None), Action::NoResponse));
}

#[test]
fn get_miss_prefers_static_file_then_wildcard() {
    let mut r: Routes<u32> = Routes::new();
    register_end_point(&mut r, Protocols::GET, "*", 404);
    match static_fallback(&r, Some("file".to_string())) {
        Action::Serve(f) => assert_eq!(f, "file"),
        _ => panic!("expected the static file"),
    }
    assert!(matches!(static_fallback(&r, None), Action::Invoke(404)));
}

#[test]
fn post_tables_are_independent() {
    let mut r: Routes<u32> = Routes::new();
    register_end_point(&mut r, Protocols::GET, "/a", 1);
    register_end_point(&mut r, Protocols::GET, "*", 9);
    assert!(matches!(resolve(&r, Protocols::POST, "/a"), Action::NoResponse));
    register_end_point(&mut r, Protocols::POST, "/a", 3);
    assert!(matches!(resolve(&r, Protocols::POST, "/a"), Action::Invoke(3)));
    assert!(matches!(resolve(&r, Protocols::PUT, "/a"), Action::NoResponse));
    register_end_point(&mut r, Protocols::DELETE, "/a", 5);
    assert!(matches!(resolve(&r, Protocols::DELETE, "/a"), Action::Invoke(5)));
}

#[test]
fn static_paths_follow_root_order() {
    let roots = vec!["public/".to_string(), "assets/".to_string()];
    let p = static_paths("index.html", &roots);
    assert_eq!(p, vec!["public/index.html".to_string(), "assets/index.html".to_string()]);
}

#[test]
fn first_root_wins() {
    let found = first_found(&vec![Some("from public".to_string()), Some("from assets".to_string())]);
    assert_eq!(found, Some("from public".to_string()));
    let found = first_found(&vec![None, Some("from assets".to_string())]);
    assert_eq!(found, Some("from assets".to_string()));
    assert_eq!(first_found(&vec![None, None]), None);
    assert_eq!(first_found(&Vec::new()), None);
}

#[test]
fn static_folder_is_lowercased() {
    let mut roots = vec!["public/".to_string()];
    register_static_folder("HTML/Static", &mut roots);
    assert_eq!(roots, vec!["public/".to_string(), "html/static".to_string()]);
}
