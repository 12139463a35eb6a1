//! The subcommands of the tool, as their arguments are read, and the settings each one runs
//! with.

use vstd::prelude::*;

verus! {

/// The arguments of `inspect`.
#[derive(Debug, Clone)]
pub struct InspectArgs {
    pub input: String,
    pub output: String,
}

/// The arguments of `audit-refs`.
#[derive(Debug, Clone)]
pub struct AuditRefsArgs {
    pub target: String,
    pub source_dexes: Vec<String>,
    pub references: Vec<String>,
    pub ignore_prefixes: Vec<String>,
    pub include_prefixes: Vec<String>,
    pub mapping: Option<String>,
    pub allow_missing: usize,
    pub output: String,
}

/// The arguments of `query`.
#[derive(Debug, Clone)]
pub struct QueryArgs {
    pub mapping: String,
    pub class: String,
}

/// The arguments of `remap`.
#[derive(Debug, Clone)]
pub struct RemapArgs {
    pub mapping: String,
    pub input: String,
    pub output: String,
    pub include_unsafe: bool,
}

/// A subcommand with its arguments.
#[derive(Debug, Clone)]
pub enum CliCommand {
    Inspect(InspectArgs),
    AuditRefs(AuditRefsArgs),
    Query(QueryArgs),
    Remap(RemapArgs),
}

/// What `inspect` runs with.
#[derive(Debug, Clone)]
pub struct InspectConfig {
    pub input: String,
    pub output: String,
    pub progress: bool,
}

/// What `audit-refs` runs with.
#[derive(Debug, Clone)]
pub struct AuditRefsConfig {
    pub target: String,
    pub source_dexes: Vec<String>,
    pub references: Vec<String>,
    pub ignore_prefixes: Vec<String>,
    pub include_prefixes: Vec<String>,
    pub mapping: Option<String>,
    pub allow_missing: usize,
    pub output: String,
    pub progress: bool,
}

/// What `query` runs with.
#[derive(Debug, Clone)]
pub struct QueryConfig {
    pub mapping: String,
    pub class: String,
}

/// What `remap` runs with.
#[derive(Debug, Clone)]
pub struct RemapConfig {
    pub mapping: String,
    pub input: String,
    pub output: String,
    pub include_unsafe: bool,
}

/// A subcommand ready to run.
#[derive(Debug, Clone)]
pub enum ToolCommand {
    Inspect(InspectConfig),
    AuditRefs(AuditRefsConfig),
    Query(QueryConfig),
    Remap(RemapConfig),
}

/// Whether progress is shown: asked for, and not turned off.
pub open spec fn progress_shown(progress: bool, no_progress: bool) -> bool {
    progress && !no_progress
}

/// A switch that is on unless its `--no-` form is given.
pub fn switch_enabled(on: bool, off: bool) -> (r: bool)
    ensures
        r == (on && !off),
{
    on && !off
}

/// The settings a subcommand runs with: its arguments, and whether progress is shown.
pub fn subcommand_config(command: CliCommand, progress: bool, no_progress: bool) -> (r: ToolCommand)
    ensures
        match (command, r) {
            (CliCommand::Inspect(a), ToolCommand::Inspect(c)) => c.input == a.input && c.output == a.output
                && c.progress == progress_shown(progress, no_progress),
            (CliCommand::AuditRefs(a), ToolCommand::AuditRefs(c)) => c.target == a.target && c.source_dexes
                == a.source_dexes && c.references == a.references && c.ignore_prefixes == a.ignore_prefixes
                && c.include_prefixes == a.include_prefixes && c.mapping == a.mapping && c.allow_missing
                == a.allow_missing && c.output == a.output && c.progress == progress_shown(progress, no_progress),
            (CliCommand::Query(a), ToolCommand::Query(c)) => c.mapping == a.mapping && c.class == a.class,
            (CliCommand::Remap(a), ToolCommand::Remap(c)) => c.mapping == a.mapping && c.input == a.input && c.output
                == a.output && c.include_unsafe == a.include_unsafe,
            _ => false,
        },
{
    let shown = switch_enabled(progress, no_progress);
    match command {
        CliCommand::Inspect(a) => ToolCommand::Inspect(InspectConfig { input: a.input, output: a.output, progress: shown }),
        CliCommand::AuditRefs(a) => ToolCommand::AuditRefs(
            AuditRefsConfig {
                target: a.target,
                source_dexes: a.source_dexes,
                references: a.references,
                ignore_prefixes: a.ignore_prefixes,
                include_prefixes: a.include_prefixes,
                mapping: a.mapping,
                allow_missing: a.allow_missing,
                output: a.output,
                progress: shown,
            },
        ),
        CliCommand::Query(a) => ToolCommand::Query(QueryConfig { mapping: a.mapping, class: a.class }),
        CliCommand::Remap(a) => ToolCommand::Remap(
            RemapConfig { mapping: a.mapping, input: a.input, output: a.output, include_unsafe: a.include_unsafe },
        ),
    }
}

/// The row limits of the text reports: none with `--full-txt`, else the ones given.
pub fn text_row_limits(full_txt: bool, max_txt_rows: usize, txt_chunk_rows: usize) -> (r: (usize, usize))
    ensures
        r == (if full_txt { (0usize, 0usize) } else { (max_txt_rows, txt_chunk_rows) }),
{
    if full_txt {
        (0, 0)
    } else {
        (max_txt_rows, txt_chunk_rows)
    }
}

} // verus!
