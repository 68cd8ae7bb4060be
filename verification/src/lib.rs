//! Backend bridge between an editor UI and a running Lisp runtime.
//!
//! The core of the library is the Slynk protocol bridge: message framing
//! (`codec`), payload decoding into a closed set of answer types (`parsing`,
//! `models`), request/response correlation via continuations (`repl`), and the
//! pure decision core of the reader/writer session threads (`repl`).  Around
//! it stand the text utilities (`text`), the file-path helpers (`file`), and
//! the in-memory file index (`fts`).

use vstd::prelude::*;

pub mod codec;
pub mod config;
pub mod error;
pub mod file;
pub mod fts;
pub mod models;
pub mod parsing;
pub mod repl;
pub mod state;
pub mod text;

verus! {

/// The status of one configured value: present and usable, absent, or
/// present but rejected.
#[derive(Debug, Clone)]
pub enum ConfigValueStatus {
    Okay(String),
    ValueMissing,
    ValueInvalid(String),
}

/// What a configuration health check found: each required value's status,
/// and whether all of them are usable.
#[derive(Debug, Clone)]
pub struct ConfigDiagnostics {
    pub ok: bool,
    pub path_to_sbcl: ConfigValueStatus,
    pub path_to_core: ConfigValueStatus,
    pub slynk_socket: ConfigValueStatus,
}

/// The status of one optional path, given whether it points at something.
pub open spec fn path_status(p: Option<String>, found: bool) -> ConfigValueStatus {
    match p {
        Some(v) => if found {
            ConfigValueStatus::Okay(v)
        } else {
            ConfigValueStatus::ValueInvalid(v)
        },
        None => ConfigValueStatus::ValueMissing,
    }
}

/// Judges a configuration: the runtime and core paths must point at existing
/// files and the socket must parse; whether they do is established outside
/// the library and handed in.
pub fn evaluate_config(
    c: &config::Config,
    sbcl_exists: bool,
    core_exists: bool,
    socket_valid: bool,
) -> (r: ConfigDiagnostics)
    ensures
        r.path_to_sbcl == path_status(c.path_to_sbcl, sbcl_exists),
        r.path_to_core == path_status(c.path_to_core, core_exists),
        (r.slynk_socket matches ConfigValueStatus::Okay(s) && s@ == c.slynk_socket@)
            <==> socket_valid,
        (r.slynk_socket matches ConfigValueStatus::ValueInvalid(s) && s@ == c.slynk_socket@) <==> !socket_valid,
        r.ok == (r.path_to_sbcl is Okay && r.path_to_core is Okay && socket_valid),
{
    let path_to_sbcl = match &c.path_to_sbcl {
        Some(p) => {
            if sbcl_exists {
                ConfigValueStatus::Okay(p.clone())
            } else {
                ConfigValueStatus::ValueInvalid(p.clone())
            }
        },
        None => ConfigValueStatus::ValueMissing,
    };
    let path_to_core = match &c.path_to_core {
        Some(p) => {
            if core_exists {
                ConfigValueStatus::Okay(p.clone())
            } else {
                ConfigValueStatus::ValueInvalid(p.clone())
            }
        },
        None => ConfigValueStatus::ValueMissing,
    };
    let slynk_socket = if socket_valid {
        ConfigValueStatus::Okay(c.slynk_socket.clone())
    } else {
        ConfigValueStatus::ValueInvalid(c.slynk_socket.clone())
    };
    let ok = match (&path_to_sbcl, &path_to_core, &slynk_socket) {
        (
            ConfigValueStatus::Okay(_),
            ConfigValueStatus::Okay(_),
            ConfigValueStatus::Okay(_),
        ) => true,
        _ => false,
    };
    ConfigDiagnostics { ok, path_to_sbcl, path_to_core, slynk_socket }
}

} // verus!
