//! Settings for one build run, and the argument list they induce.
use vstd::prelude::*;
use vstd::string::*;

verus! {

/// Settings for one build run: whole-workspace or single package, an
/// optional single-binary filter, and a quiet flag. Immutable once built;
/// each setter returns a new value with one field changed.
pub struct BinTestBuilder {
    build_workspace: bool,
    specific_executable: Option<String>,
    quiet: bool,
}

impl BinTestBuilder {
    /// Whether the build covers the whole workspace.
    pub closed spec fn spec_build_workspace(&self) -> bool {
        self.build_workspace
    }

    /// The single-binary filter, if one is set.
    pub closed spec fn spec_specific_executable(&self) -> Option<Seq<char>> {
        match self.specific_executable {
            Some(s) => Some(s@),
            None => None,
        }
    }

    /// Whether the build tool is asked to keep quiet.
    pub closed spec fn spec_quiet(&self) -> bool {
        self.quiet
    }

    /// Default settings: single-package build, no filter, not quiet.
    pub fn new() -> (r: BinTestBuilder)
        ensures
            !r.spec_build_workspace(),
            r.spec_specific_executable() is None,
            !r.spec_quiet(),
    {
        BinTestBuilder { build_workspace: false, specific_executable: None, quiet: false }
    }

    /// Allow building all executables in a workspace.
    pub fn build_workspace(self, workspace: bool) -> (r: Self)
        ensures
            r.spec_build_workspace() == workspace,
            r.spec_specific_executable() == self.spec_specific_executable(),
            r.spec_quiet() == self.spec_quiet(),
    {
        Self { build_workspace: workspace, ..self }
    }

    /// Restrict the build to one named executable.
    pub fn build_executable(self, executable: String) -> (r: Self)
        ensures
            r.spec_build_workspace() == self.spec_build_workspace(),
            r.spec_specific_executable() == Some(executable@),
            r.spec_quiet() == self.spec_quiet(),
    {
        Self { specific_executable: Some(executable), ..self }
    }

    /// Silence the build tool's extra output.
    pub fn quiet(self, quiet: bool) -> (r: Self)
        ensures
            r.spec_build_workspace() == self.spec_build_workspace(),
            r.spec_specific_executable() == self.spec_specific_executable(),
            r.spec_quiet() == quiet,
    {
        Self { quiet, ..self }
    }
}

/// The argument list handed to the build tool for these settings: a build
/// request with line-delimited JSON progress output, then the optional
/// release, workspace, single-binary and quiet flags, in that order.
pub open spec fn spec_cargo_args(b: BinTestBuilder, release: bool) -> Seq<Seq<char>> {
    let with_base = seq!["build"@, "--message-format"@, "json"@];
    let with_release = if release {
        with_base.push("--release"@)
    } else {
        with_base
    };
    let with_workspace = if b.spec_build_workspace() {
        with_release.push("--workspace"@)
    } else {
        with_release
    };
    let with_bin = match b.spec_specific_executable() {
        Some(name) => with_workspace.push("--bin"@).push(name),
        None => with_workspace,
    };
    if b.spec_quiet() {
        with_bin.push("--quiet"@)
    } else {
        with_bin
    }
}

impl BinTestBuilder {
    /// Assembles the build tool's argument list for these settings. The
    /// release flag is decided by the caller once, at process start.
    pub fn cargo_args(&self, release: bool) -> (r: Vec<String>)
        ensures
            r.deep_view() == spec_cargo_args(*self, release),
    {
        let mut args: Vec<String> = Vec::new();
        args.push(String::from_str("build"));
        args.push(String::from_str("--message-format"));
        args.push(String::from_str("json"));
        if release {
            args.push(String::from_str("--release"));
        }
        if self.build_workspace {
            args.push(String::from_str("--workspace"));
        }
        match &self.specific_executable {
            Some(name) => {
                args.push(String::from_str("--bin"));
                args.push(name.clone());
            },
            None => {},
        }
        if self.quiet {
            args.push(String::from_str("--quiet"));
        }
        assert(args.deep_view() =~~= spec_cargo_args(*self, release));
        args
    }
}

} // verus!
