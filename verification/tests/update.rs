use avion_messager::update::{is_newer, parse_version, release_tag, update_action, UpdateAction};

#[test]
fn is_newer_compare_les_versions() {
    assert!(is_newer("v0.2.0", "0.1.0"));
    assert!(is_newer("1.0.0", "0.9.9"));
    assert!(is_newer("v0.1.10", "0.1.9"));
    assert!(!is_newer("v0.1.0", "0.1.0"));
    assert!(!is_newer("v0.0.9", "0.1.0"));
    assert!(!is_newer("n'importe quoi", "0.1.0"));
}

#[test]
fn parse_version_cases() {
    assert_eq!(parse_version("  v1.2.3\n"), Some((1, 2, 3)));
    assert_eq!(parse_version("vv1.2.3"), Some((1, 2, 3)));
    assert_eq!(parse_version("1.2.3.4"), Some((1, 2, 3)));
    assert_eq!(parse_version("+1.2.3"), Some((1, 2, 3)));
    assert_eq!(parse_version("1.2"), None);
    assert_eq!(parse_version("1.-2.3"), None);
    assert_eq!(parse_version("1..3"), None);
    assert_eq!(parse_version("4294967295.0.0"), Some((4294967295, 0, 0)));
    assert_eq!(parse_version("4294967296.0.0"), None);
    assert_eq!(parse_version(" 1 .2.3"), None);
    assert_eq!(parse_version("\u{3000}1.2.3\u{a0}"), Some((1, 2, 3)));
}

#[test]
fn update_action_cases() {
    assert!(matches!(update_action(Some("v9.0.0"), "0.1.0"), UpdateAction::OpenReleasePage));
    match update_action(Some("v0.1.0"), "0.1.0") {
        UpdateAction::Inform(m) => assert_eq!(m, "Avion Messager est à jour (v0.1.0)."),
        _ => panic!(),
    }
    match update_action(None, "0.1.0") {
        UpdateAction::Inform(m) => {
            assert_eq!(m, "Impossible de vérifier les mises à jour — réessaie plus tard.")
        }
        _ => panic!(),
    }
}

#[test]
fn release_tag_reads_tag_name_member() {
    assert_eq!(release_tag(r#"{"tag_name":"v0.2.0","name":"x"}"#).as_deref(), Some("v0.2.0"));
    assert_eq!(release_tag(r#"{"name":"tag_name"}"#), None);
    assert_eq!(release_tag(r#"{"tag_name":3}"#), None);
    assert_eq!(release_tag("pas du json"), None);
}
