//! The command surface: global flags, the subcommands, and the global
//! read-only / read-write toggle that gates every replay step without
//! altering the read and compute steps.

use vstd::prelude::*;

verus! {

/// Whether replay steps may perform remote writes.  In read-only mode
/// every read-side and computational step still executes normally; only
/// the final write step is suppressed, so a user can preview the exact
/// mutation set without side effects.
#[derive(Clone, Copy, Debug, PartialEq, Eq, Structural)]
pub enum OperationMode {
    ReadOnly,
    ReadWrite,
}

/// One requested operation, with its inputs.
#[derive(Debug)]
pub enum KeezCommand {
    /// Transplant all parameters under `source` to an equivalent spot
    /// under `destination`, with overwriting disabled.
    Copy { source: String, destination: String, edit: bool },
    /// Author a new collection from scratch and push it, with overwriting
    /// disabled.
    Create {},
    /// Edit existing parameters under `prefix` and push only the changed
    /// ones back, with overwriting enabled.
    Edit { prefix: String },
    /// Seal all parameters under `source` into an encrypted export file.
    Export { source: String, export_filename: String, insecure_output: bool },
    /// Open an export file and push its parameters under `destination`,
    /// with overwriting disabled.
    Import { destination: String, import_filename: String, edit: bool },
}

/// The global flags together with the chosen subcommand.
#[derive(Debug)]
pub struct Keez {
    dry_run: bool,
    debug: bool,
    cmd: KeezCommand,
}

impl Keez {
    /// Whether write operations are suppressed.
    pub closed spec fn dry_run_spec(&self) -> bool {
        self.dry_run
    }

    /// Whether extra detailed output was requested.
    pub closed spec fn debug_spec(&self) -> bool {
        self.debug
    }

    /// The chosen subcommand.
    pub closed spec fn cmd_spec(&self) -> &KeezCommand {
        &self.cmd
    }

    /// Packs parsed flags and the subcommand together.
    pub fn new(dry_run: bool, debug: bool, cmd: KeezCommand) -> (r: Keez)
        ensures
            r.dry_run_spec() == dry_run,
            r.debug_spec() == debug,
            r.cmd_spec() == cmd,
    {
        Keez { dry_run, debug, cmd }
    }

    /// Whether extra detailed output was requested.
    pub fn debug(&self) -> (r: &bool)
        ensures
            *r == self.debug_spec(),
    {
        &self.debug
    }

    /// The chosen subcommand.
    pub fn cmd(&self) -> (r: &KeezCommand)
        ensures
            r == self.cmd_spec(),
    {
        &self.cmd
    }

    /// The mode every replay step is gated by: a dry run reads and
    /// computes but never writes.
    pub fn operation_mode(&self) -> (r: &OperationMode)
        ensures
            *r == (if self.dry_run_spec() {
                OperationMode::ReadOnly
            } else {
                OperationMode::ReadWrite
            }),
    {
        if self.dry_run {
            &OperationMode::ReadOnly
        } else {
            &OperationMode::ReadWrite
        }
    }
}

} // verus!
