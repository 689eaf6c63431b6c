use ruulang::config::config::{ConfigWorkspace, JsonCodegen, PythonCodegen, RuuLangConfig};

#[test]
fn default_configuration_enables_nothing() {
    let config = RuuLangConfig::default();
    assert!(config.workspace.root.is_none());
    assert!(!config.json_enabled());
    assert!(!config.python_enabled());
}

#[test]
fn back_ends_are_enabled_by_their_flags() {
    let config = RuuLangConfig {
        workspace: ConfigWorkspace { root: None },
        json: Some(JsonCodegen { enabled: true }),
        python: Some(PythonCodegen { enabled: false }),
    };
    assert!(config.json_enabled());
    assert!(!config.python_enabled());
}

#[test]
fn root_defaults_to_the_working_directory() {
    let config = RuuLangConfig::default().with_root_or("/work");
    assert_eq!(config.workspace.root, Some("/work".to_string()));
    let named = RuuLangConfig {
        workspace: ConfigWorkspace { root: Some("/named".to_string()) },
        json: None,
        python: Some(PythonCodegen { enabled: true }),
    }
    .with_root_or("/work");
    assert_eq!(named.workspace.root, Some("/named".to_string()));
    assert!(named.python_enabled());
}

#[test]
fn configuration_is_searched_upwards() {
    assert_eq!(
        RuuLangConfig::search_places("/a/b/c/ruu.toml"),
        vec!["/a/b/c/ruu.toml", "/a/b/ruu.toml", "/a/ruu.toml", "/ruu.toml"]
    );
    assert_eq!(
        RuuLangConfig::search_places("/a/other.toml"),
        vec!["/a/other.toml", "/other.toml"]
    );
    assert_eq!(RuuLangConfig::search_places("/"), Vec::<String>::new());
}
