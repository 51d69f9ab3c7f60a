//! Keeps binaries installed through a package manager's install command up to
//! date. The library holds the verified core: parsing the installed-package
//! listing, folding it into a deduplicated installed set, synthesizing the
//! throwaway manifest whose lock file the package manager's own resolver
//! fills in, reading that lock file back, and planning which packages to
//! reinstall. Subprocess calls and the scoped temporary directory live with
//! the binary around the library.

pub mod listing;
pub mod plan;
pub mod resolve;
pub mod text;

pub use listing::{
    installed_crates, CollectOutcome, Crate, CrateKind, LineParse, ParseListOutputError,
    UnsupportedOrigin, Warning,
};
pub use plan::{plan_updates, Plan, PlannedUpdate, UpdateRun};
pub use resolve::{
    manifest_text, parse_lock, resolved_versions, LockPackage, ResolveError, ResolveOutcome,
    ResolvedVersion,
};
