//! The configuration record and its default values.  Reading and writing the
//! configuration file happens outside the library.

use vstd::prelude::*;

verus! {

/// The backend's configuration: where the Lisp runtime lives, how to reach
/// its server, and the editor preferences.
#[derive(Debug, Clone)]
pub struct Config {
    pub path_to_sbcl: Option<String>,
    pub path_to_core: Option<String>,
    pub slynk_socket: String,
    pub vim_mode: bool,
    pub vim_esc: Option<String>,
    pub shortcut_compile_and_load_file: Option<String>,
    pub shortcut_compile_top_level: Option<String>,
    pub shortcut_eval_last_expression: Option<String>,
    pub show_line_numbers: bool,
}

/// The configuration a fresh install starts from.
pub fn default_config() -> (r: Config)
    ensures
        r.path_to_sbcl is None,
        r.path_to_core is None,
        r.slynk_socket@ == "127.0.0.1:4005"@,
        !r.vim_mode,
        r.vim_esc is None,
        (r.shortcut_compile_and_load_file matches Some(s) && s@ == "Shift-Ctrl-L"@),
        (r.shortcut_compile_top_level matches Some(s) && s@ == "Shift-Ctrl-C"@),
        (r.shortcut_eval_last_expression matches Some(s) && s@ == "Shift-Ctrl-E"@),
        !r.show_line_numbers,
{
    Config {
        path_to_sbcl: None,
        path_to_core: None,
        slynk_socket: String::from_str("127.0.0.1:4005"),
        vim_mode: false,
        vim_esc: None,
        shortcut_compile_and_load_file: Some(String::from_str("Shift-Ctrl-L")),
        shortcut_compile_top_level: Some(String::from_str("Shift-Ctrl-C")),
        shortcut_eval_last_expression: Some(String::from_str("Shift-Ctrl-E")),
        show_line_numbers: false,
    }
}

} // verus!
