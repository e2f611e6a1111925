use sentinel::config::SentinelConfig;

#[test]
fn default_config() {
    let c = SentinelConfig::default();
    assert_eq!(c.folders, vec!["app".to_string()]);
    assert_eq!(c.output, "sig/generated");
    assert_eq!(c.shared_paths, vec!["sig/shared".to_string()]);
    assert!(!c.emit_superclasses);
    assert_eq!(c.output_path(), "sig/generated");
    assert_eq!(c.folder_paths(), vec!["app".to_string()]);
    assert_eq!(c.shared_type_paths(), vec!["sig/shared".to_string()]);
}

#[test]
fn add_folder_normalizes_and_refuses_duplicates() {
    let mut c = SentinelConfig::default();
    assert!(c.add_folder("lib/"));
    assert_eq!(c.folders, vec!["app".to_string(), "lib".to_string()]);
    // adding again, with or without slashes, changes nothing
    assert!(!c.add_folder("lib"));
    assert!(!c.add_folder("lib//"));
    assert!(!c.add_folder("app"));
    assert_eq!(c.folders, vec!["app".to_string(), "lib".to_string()]);
    assert!(c.add_folder("config/initializers"));
    assert_eq!(c.folders.len(), 3);
}

#[test]
fn remove_folder_undoes_add() {
    let mut c = SentinelConfig::default();
    assert!(c.add_folder("lib"));
    assert!(c.remove_folder("lib/"));
    assert_eq!(c.folders, vec!["app".to_string()]);
    assert!(!c.remove_folder("lib"));
    assert!(c.remove_folder("app"));
    assert!(c.folders.is_empty());
    assert_eq!(c.output, "sig/generated");
}

#[test]
fn remove_folder_removes_every_copy() {
    let mut c = SentinelConfig {
        folders: vec!["app".to_string(), "lib".to_string(), "app".to_string()],
        output: "out".to_string(),
        shared_paths: vec![],
        emit_superclasses: true,
    };
    assert!(c.remove_folder("app"));
    assert_eq!(c.folders, vec!["lib".to_string()]);
    assert!(c.emit_superclasses);
    assert_eq!(c.output_path(), "out");
}
