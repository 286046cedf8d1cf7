use diverge::config::{default_config, default_true, EditorPreferences};

#[test]
fn default_config_has_common_ignore_dirs() {
    let cfg = default_config();
    assert!(cfg.ignore_dirs.contains(&".git".to_string()));
    assert!(cfg.ignore_dirs.contains(&"node_modules".to_string()));
    assert!(cfg.ignore_dirs.contains(&"__pycache__".to_string()));
    assert!(cfg.ignore_dirs.contains(&"target".to_string()));
    assert!(cfg.ignore_dirs.contains(&"vendor".to_string()));
}

#[test]
fn default_config_has_default_editor_prefs() {
    let cfg = default_config();
    assert!(!cfg.editor_preferences.minimap_enabled);
}

#[test]
fn default_editor_preferences_show_full_content() {
    let prefs = EditorPreferences::default();
    assert!(!prefs.minimap_enabled);
    assert!(prefs.show_full_content);
    assert!(default_true());
}
