//! Options of a production build, as handed to the runtime's consumers.
use vstd::prelude::*;

verus! {

/// How severe a reported issue is, most severe first.
#[derive(Clone, Copy, Debug, PartialEq, Eq, Hash, Structural)]
pub enum IssueSeverity {
    Bug,
    Fatal,
    Error,
    Warning,
    Hint,
    Note,
    Suggestion,
    Info,
}

/// One rewrite rule of the framework configuration.
#[derive(Clone, Debug)]
pub struct Rewrite {
    pub source: String,
    pub destination: String,
}

/// The rewrite rules of the framework configuration, by the phase in which
/// they apply.
#[derive(Clone, Debug)]
pub struct Rewrites {
    pub before_files: Vec<Rewrite>,
    pub after_files: Vec<Rewrite>,
    pub fallback: Vec<Rewrite>,
}

#[derive(Clone, Debug)]
pub struct BuildOptions {
    /// The root directory of the workspace.
    pub root: Option<String>,
    /// The project's directory.
    pub dir: Option<String>,
    /// The maximum memory to use for the build.
    pub memory_limit: Option<usize>,
    /// The log level to use for the build.
    pub log_level: Option<IssueSeverity>,
    /// Whether to show all logs.
    pub show_all: bool,
    /// Whether to show detailed logs.
    pub log_detail: bool,
    /// Whether to compute full stats.
    pub full_stats: bool,
    /// The build context of the framework.
    pub build_context: Option<BuildContext>,
}

#[derive(Clone, Debug)]
pub struct BuildContext {
    /// The build id.
    pub build_id: String,
    /// Rewrites of the framework configuration.
    pub rewrites: Rewrites,
}

} // verus!
