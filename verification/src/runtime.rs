//! Module runs with isolated standard I/O, filesystem and network: what is
//! mounted, what a mount permits, and how a run ended.

use crate::host::guest;
use crate::manifest::Prepare;
use crate::path::UnixPath;
use vstd::prelude::*;

verus! {

/// A read-only directory to mount inside the guest filesystem.
#[derive(Debug)]
pub struct ReadOnlyMount {
    pub guest: UnixPath,
    pub host: UnixPath,
}

/// Inputs for one module run.
#[derive(Debug)]
pub struct RunRequest<'a> {
    pub module: &'a UnixPath,
    pub args: &'a Vec<String>,
    pub stdin: &'a [u8],
    pub mounts: &'a Vec<ReadOnlyMount>,
}

impl<'a> RunRequest<'a> {
    /// The name the module runs under.
    pub fn program_name(&self) -> (r: String)
        ensures
            r@ == guest::program_text(self.module@),
    {
        guest::program(self.module)
    }
}

/// Captured results from a completed module run.
#[derive(Debug, PartialEq, Eq)]
pub struct RunOutput {
    pub status: i32,
    pub stdout: Vec<u8>,
    pub stderr: Vec<u8>,
}

/// How a module's entry point ended.
#[derive(Clone, Copy, Debug, PartialEq, Eq, Structural)]
pub enum StartResult {
    /// It returned.
    Returned,
    /// The guest exited with this status.
    Exited(i32),
    /// The run failed.
    Failed,
}

/// The status of a run; `None` where it failed. A normal non-zero exit is a
/// status, not a failure.
pub fn run_status(result: StartResult) -> (r: Option<i32>)
    ensures
        r == match result {
            StartResult::Returned => Some(0i32),
            StartResult::Exited(status) => Some(status),
            StartResult::Failed => None,
        },
{
    match result {
        StartResult::Returned => Some(0),
        StartResult::Exited(status) => Some(status),
        StartResult::Failed => None,
    }
}

/// How a file is to be opened.
#[derive(Clone, Copy, Debug, PartialEq, Eq, Structural)]
pub struct OpenMode {
    pub read: bool,
    pub write: bool,
    pub create_new: bool,
    pub create: bool,
    pub append: bool,
    pub truncate: bool,
}

impl OpenMode {
    /// Whether a read-only mount permits it: nothing that could write.
    pub fn is_permitted(self) -> (r: bool)
        ensures
            r == !(self.write || self.create || self.create_new || self.append || self.truncate),
    {
        !(self.write || self.create || self.create_new || self.append || self.truncate)
    }
}

/// What a guest does to a path.
#[derive(Clone, Copy, Debug, PartialEq, Eq, Structural)]
pub enum Operation {
    ReadLink,
    ReadDirectory,
    Metadata,
    SymlinkMetadata,
    CreateDirectory,
    CreateSymlink,
    HardLink,
    RemoveDirectory,
    RemoveFile,
    Rename,
}

impl Operation {
    /// Whether a read-only mount permits it: what only looks.
    pub fn is_permitted(self) -> (r: bool)
        ensures
            r == (self == Operation::ReadLink || self == Operation::ReadDirectory || self
                == Operation::Metadata || self == Operation::SymlinkMetadata),
    {
        match self {
            Operation::ReadLink => true,
            Operation::ReadDirectory => true,
            Operation::Metadata => true,
            Operation::SymlinkMetadata => true,
            _ => false,
        }
    }
}

/// Whether the mounts are those of a manifest's prepare table, in its order.
pub open spec fn mounts_of(prepare: Prepare, mounts: Seq<ReadOnlyMount>) -> bool {
    &&& mounts.len() == prepare.fs@.len()
    &&& forall|i: int|
        0 <= i < mounts.len() ==> (#[trigger] mounts[i]).guest@ == prepare.fs@[i].0@
            && mounts[i].host@ == prepare.fs@[i].1@
}

/// The mounts of a host: those of its manifest's prepare table.
pub fn read_only_mounts(prepare: Option<&Prepare>) -> (r: Vec<ReadOnlyMount>)
    ensures
        match prepare {
            Some(prepare) => mounts_of(*prepare, r@),
            None => r@.len() == 0,
        },
{
    let mut mounts: Vec<ReadOnlyMount> = Vec::new();
    if let Some(prepare) = prepare {
        let mut i: usize = 0;
        while i < prepare.fs.len()
            invariant
                i <= prepare.fs@.len(),
                mounts@.len() == i,
                forall|j: int|
                    0 <= j < i ==> (#[trigger] mounts@[j]).guest@ == prepare.fs@[j].0@
                        && mounts@[j].host@ == prepare.fs@[j].1@,
            decreases prepare.fs@.len() - i,
        {
            mounts.push(
                ReadOnlyMount { guest: prepare.fs[i].0.clone(), host: prepare.fs[i].1.clone() },
            );
            i = i + 1;
        }
    }
    mounts
}

/// Every mount of a prepare is mounted, at its own place and from its own
/// source, and nothing else is.
pub proof fn law_each_mount_is_mounted(prepare: Prepare, mounts: Seq<ReadOnlyMount>, i: int)
    requires
        mounts_of(prepare, mounts),
        0 <= i < prepare.fs@.len(),
    ensures
        mounts.len() == prepare.fs@.len(),
        mounts[i].guest@ == prepare.fs@[i].0@,
        mounts[i].host@ == prepare.fs@[i].1@,
{
}

} // verus!
