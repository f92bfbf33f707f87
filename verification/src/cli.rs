//! The settings a run is started with.

use vstd::prelude::*;

verus! {

/// What a run does with the manifests it finds wanting.
#[derive(Clone, Copy, Debug, PartialEq, Eq, Structural)]
pub enum Mode {
    /// Report only.
    Check,
    /// Show the change to each manifest and write nothing.
    DryRun,
    /// Write each changed manifest beside the manifest it replaces.
    DryRun2,
    /// Replace each manifest with its changed text.
    Overwrite,
}

/// What new array entries are indented with.
#[derive(Clone, Copy, Debug, PartialEq, Eq, Structural)]
pub enum IndentSymbol {
    Tab,
    Whitespace,
}

/// Settings shared by the analysis and the repair.
#[derive(Clone, Debug)]
pub struct SharedInitiator {
    /// The tracked features.
    pub features: Vec<String>,
    /// How many tasks may be active at once.
    pub thread: u16,
    pub mode: Mode,
    pub indent_symbol: IndentSymbol,
    /// Number of spaces of one indentation, where spaces are used.
    pub indent_size: usize,
}

/// Settings of the analysis.
#[derive(Clone, Debug)]
pub struct AnalyzerInitiator {
    /// Path of the root manifest, or of the directory that holds it.
    pub manifest_path: String,
    /// Leave out packages that are not members of the workspace.
    pub workspace_only: bool,
    /// Names of packages to leave out.
    pub ignore: Vec<String>,
    /// Report dependencies whose default features turn on `std`.
    pub default_std: bool,
    /// Names of dependencies that the default-features check leaves alone.
    pub non_default_std: Vec<String>,
}

/// Settings of the repair.
#[derive(Clone, Copy, Debug)]
pub struct ResolverInitiator {
    /// Sort the entries of each tracked feature.
    pub sort: bool,
}

/// All settings of a run.
#[derive(Clone, Debug)]
pub struct Cli {
    pub shared_initiator: SharedInitiator,
    pub analyzer_initiator: AnalyzerInitiator,
    /// How many levels below the root are analyzed; a negative number lifts
    /// the limit.
    pub depth: i16,
    pub resolver_initiator: ResolverInitiator,
    pub verbose: bool,
}

impl Mode {
    /// The mode leaves the manifests as they are, or at most writes beside
    /// them.
    pub open spec fn leaves_manifests(self) -> bool {
        self != Mode::Overwrite
    }

    /// The status the process ends with: failure exactly when problems were
    /// found and the mode does not repair them in place.
    pub fn exit_code(self, problems_found: bool) -> (code: i32)
        ensures
            code == if problems_found && self.leaves_manifests() {
                -1i32
            } else {
                0i32
            },
    {
        match self {
            Mode::Overwrite => 0,
            _ => if problems_found {
                -1
            } else {
                0
            },
        }
    }

    /// Whether the report is printed: always in `Check` mode, otherwise on
    /// request.
    pub fn prints_report(self, verbose: bool) -> (r: bool)
        ensures
            r == (verbose || self == Mode::Check),
    {
        verbose || self == Mode::Check
    }
}

} // verus!
