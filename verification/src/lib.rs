//! Verified core of a tool that narrows down which source files of a crate
//! make `cargo fmt` crash: path normalisation, the run history, the list of
//! files offered to the user, the scan for `mod` declarations and the
//! bookkeeping of which module files have been copied.
pub mod text;
pub mod path_norm;
pub mod mod_decls;
pub mod history;
pub mod rel_path;
pub mod entries;
pub mod module_walk;
pub mod fmt_run;
