//! The caller-facing argument model: what a parsed invocation means, which
//! flags are gated behind the experimental privilege, and how the final
//! command list is resolved from inline commands and file-sourced commands.

use vstd::prelude::*;

verus! {

/// The privilege level an invocation runs under. Experimental features are
/// rejected without the experimental privilege.
#[derive(Debug, Eq, PartialEq, Clone, Copy)]
pub enum Privilege {
    Normal,
    Experimental,
}

/// Output format of the rendered manual.
#[derive(Debug, Eq, PartialEq, Clone, Copy)]
pub enum ManualFormat {
    Manpages,
    Markdown,
}

/// A shell for which completion scripts can be rendered.
#[derive(Debug, Eq, PartialEq, Clone, Copy)]
pub enum Shell {
    Bash,
    Zsh,
    Fish,
    Elvish,
    Powershell,
}

/// Structured result format for the captured stdout of the run.
#[derive(Debug, Eq, PartialEq, Clone, Copy)]
pub enum StdoutFormat {
    Json,
    Yaml,
}

impl StdoutFormat {
    /// The accepted values of the stdout-format selector, in the order they
    /// are offered.
    pub fn args() -> (r: Vec<&'static str>)
        ensures
            r@.len() == 2,
            r@[0]@ == "json"@,
            r@[1]@ == "yaml"@,
    {
        let mut args: Vec<&'static str> = Vec::new();
        args.push("json");
        args.push("yaml");
        args
    }
}

/// What the caller asked for: render the manual, render shell completions,
/// or multiplex a list of commands.
#[derive(Debug)]
pub enum Command {
    Manual { path: String, format: ManualFormat },
    Autocomplete { path: String, shell: Shell },
    Multiplex {
        program: Vec<String>,
        stdout: Option<StdoutFormat>,
        stderr: usize,
        commands: Vec<String>,
        parallelism: Option<usize>,
    },
}

impl Command {
    /// A multiplex invocation that selects a structured stdout format.
    pub open spec fn selects_stdout(self) -> bool {
        match self {
            Command::Multiplex { stdout, .. } => stdout is Some,
            _ => false,
        }
    }

    /// A multiplex invocation that caps parallelism explicitly.
    pub open spec fn selects_parallelism(self) -> bool {
        match self {
            Command::Multiplex { parallelism, .. } => parallelism is Some,
            _ => false,
        }
    }
}

/// Why an invocation was rejected: the named flag is experimental and the
/// invocation does not carry the experimental privilege.
#[derive(Debug, Eq, PartialEq, Clone, Copy)]
pub enum ValidateError {
    ExperimentalStdout,
    ExperimentalParallelism,
}

impl ValidateError {
    /// The single-line diagnostic for this rejection.
    pub fn message(&self) -> (r: &'static str)
        ensures
            *self is ExperimentalStdout ==> r@ == "experimental flag (stdout)"@,
            *self is ExperimentalParallelism ==> r@ == "experimental flag (parallelism)"@,
    {
        match self {
            ValidateError::ExperimentalStdout => "experimental flag (stdout)",
            ValidateError::ExperimentalParallelism => "experimental flag (parallelism)",
        }
    }
}

/// A fully parsed invocation.
#[derive(Debug)]
pub struct CallArgs {
    pub privileges: Privilege,
    pub command: Command,
}

impl CallArgs {
    /// Accepts the invocation unless it uses an experimental flag without
    /// the experimental privilege. The stdout selector is checked before the
    /// parallelism cap, so when both are present the stdout rejection wins.
    pub fn validate(&self) -> (r: Result<(), ValidateError>)
        ensures
            r is Ok <==> (self.privileges is Experimental || (!self.command.selects_stdout()
                && !self.command.selects_parallelism())),
            r == Result::<(), ValidateError>::Err(ValidateError::ExperimentalStdout) <==> (
            self.privileges is Normal && self.command.selects_stdout()),
            r == Result::<(), ValidateError>::Err(ValidateError::ExperimentalParallelism) <==> (
            self.privileges is Normal && !self.command.selects_stdout()
                && self.command.selects_parallelism()),
    {
        if matches!(self.privileges, Privilege::Experimental) {
            return Ok(());
        }
        match &self.command {
            Command::Multiplex { stdout, parallelism, .. } => {
                if stdout.is_some() {
                    return Err(ValidateError::ExperimentalStdout);
                }
                if parallelism.is_some() {
                    return Err(ValidateError::ExperimentalParallelism);
                }
                Ok(())
            },
            _ => Ok(()),
        }
    }
}

/// The fully resolved command list: the inline commands in their given
/// order, followed by every file's commands, file by file, in the order the
/// files were given. The position of a command in this list is its task id.
pub fn resolve_commands(direct: Vec<String>, file_lists: Vec<Vec<String>>) -> (r: Vec<String>)
    ensures
        r@ == direct@ + file_lists@.flat_map(|l: Vec<String>| l@),
{
    let ghost all = file_lists@;
    let mut out = direct;
    let mut rest = file_lists;
    let ghost mut k: int = 0;
    proof {
        assert(all.take(0).flat_map(|l: Vec<String>| l@) =~~= Seq::<String>::empty());
        assert(out@ + all.take(0).flat_map(|l: Vec<String>| l@) =~= out@);
    }
    while rest.len() > 0
        invariant
            0 <= k,
            k + rest@.len() == all.len(),
            rest@ =~= all.skip(k),
            out@ == direct@ + all.take(k).flat_map(|l: Vec<String>| l@),
        decreases rest@.len(),
    {
        let mut list = rest.remove(0);
        let ghost prev_out = out@;
        out.append(&mut list);
        proof {
            assert(all.skip(k)[0] == all[k]);
            all.lemma_flat_map_take_append(|l: Vec<String>| l@, k);
            assert(prev_out + all[k]@ =~= direct@ + all.take(k + 1).flat_map(
                |l: Vec<String>| l@,
            ));
            assert(rest@ =~= all.skip(k).drop_first());
            assert(all.skip(k).drop_first() =~= all.skip(k + 1));
            k = k + 1;
        }
    }
    proof {
        assert(all.take(k) =~= all);
    }
    out
}

} // verus!
