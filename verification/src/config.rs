//! Application configuration data and its defaults. Loading and saving
//! the configuration is I/O and lives with the host; the data and the
//! default values live here.

use vstd::prelude::*;
use vstd::string::StringExecFns;

verus! {

/// The directories to compare, as given on the command line.
#[derive(Debug, Clone)]
pub struct CliArgs {
    pub left_dir: String,
    pub right_dir: String,
    pub cwd: String,
}

/// Editor display preferences.
#[derive(Debug, Clone)]
pub struct EditorPreferences {
    pub minimap_enabled: bool,
    pub show_full_content: bool,
}

/// The persisted configuration: the ignore rules handed to every
/// comparison, and the editor preferences.
#[derive(Debug, Clone)]
pub struct AppConfig {
    pub ignore_dirs: Vec<String>,
    pub editor_preferences: EditorPreferences,
}

/// What the running application holds: the command-line arguments and
/// the configuration.
pub struct AppState {
    pub cli_args: CliArgs,
    pub config: AppConfig,
}

/// The default for a preference that is on unless switched off.
pub fn default_true() -> (b: bool)
    ensures
        b,
{
    true
}

impl Default for EditorPreferences {
    /// By default the minimap is off and full content is shown.
    fn default() -> (r: Self)
        ensures
            !r.minimap_enabled,
            r.show_full_content,
    {
        EditorPreferences { minimap_enabled: false, show_full_content: true }
    }
}

/// The ignore rules a fresh configuration starts with.
pub open spec fn default_ignore_names() -> Seq<Seq<char>> {
    seq![
        ".git"@,
        "node_modules"@,
        "__pycache__"@,
        "venv"@,
        ".venv"@,
        "target"@,
        ".DS_Store"@,
        ".idea"@,
        ".vscode"@,
        "dist"@,
        "build"@,
        ".next"@,
        ".nuxt"@,
        "coverage"@,
        ".tox"@,
        ".mypy_cache"@,
        ".pytest_cache"@,
        ".cargo"@,
        ".terraform"@,
        "vendor"@,
    ]
}

/// A fresh configuration: the stock ignore rules and default editor
/// preferences.
pub fn default_config() -> (c: AppConfig)
    ensures
        c.ignore_dirs.deep_view() == default_ignore_names(),
        !c.editor_preferences.minimap_enabled,
        c.editor_preferences.show_full_content,
{
    let ignore_dirs: Vec<String> = vec![
        String::from_str(".git"),
        String::from_str("node_modules"),
        String::from_str("__pycache__"),
        String::from_str("venv"),
        String::from_str(".venv"),
        String::from_str("target"),
        String::from_str(".DS_Store"),
        String::from_str(".idea"),
        String::from_str(".vscode"),
        String::from_str("dist"),
        String::from_str("build"),
        String::from_str(".next"),
        String::from_str(".nuxt"),
        String::from_str("coverage"),
        String::from_str(".tox"),
        String::from_str(".mypy_cache"),
        String::from_str(".pytest_cache"),
        String::from_str(".cargo"),
        String::from_str(".terraform"),
        String::from_str("vendor"),
    ];
    proof {
        assert(ignore_dirs.deep_view() =~= default_ignore_names());
    }
    AppConfig { ignore_dirs, editor_preferences: EditorPreferences::default() }
}

} // verus!
