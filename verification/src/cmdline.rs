use vstd::prelude::*;

verus! {

/// Arguments of the diff operation: the read-only source tree and the
/// target tree that is rewritten in place into a delta tree. Directory
/// paths are raw POSIX path byte strings.
pub struct Diff {
    pub source_dir: Vec<u8>,
    pub target_delta_dir: Vec<u8>,
}

/// Arguments of the apply operation: the read-only source tree and the
/// delta tree that is rewritten in place back into the target tree.
pub struct Apply {
    pub source_dir: Vec<u8>,
    pub delta_target_dir: Vec<u8>,
}

/// Arguments of the recipe generator: which operation the generated
/// container-build recipe is to run, on which images, and under which
/// published tool version (the building crate's own version unless
/// overridden).
pub enum DockerFile {
    Diff {
        image_a: String,
        image_b: String,
        unlinked: bool,
        override_version: Option<String>,
    },
    Apply {
        delta_image: String,
        unlinked_source: Option<String>,
        override_version: Option<String>,
    },
}

/// The tool's commands.
pub enum Command {
    Diff(Diff),
    Apply(Apply),
    DockerFile(DockerFile),
}

/// The parsed command line: the chosen command and the debug flag.
pub struct Cmdline {
    pub debug: bool,
    pub command: Command,
}

} // verus!
