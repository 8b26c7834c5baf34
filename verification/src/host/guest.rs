//! Guest runs: what a run is, how it ended and which modules are loaded.

use crate::path;
use crate::path::UnixPath;
use vstd::prelude::*;

verus! {

/// One run of a module: the prepare step, the serving guest, or the
/// initializer.
#[derive(Debug)]
pub struct GuestRun<'a> {
    pub module: &'a UnixPath,
    pub args: Vec<String>,
    pub stdin: &'a [u8],
    /// Whether the run gets the host's networking; the prepare step does not.
    pub network: bool,
}

/// The program name of a module that has none.
pub const DEFAULT_PROGRAM: &'static str = "module";

/// The program name of a module: the name its path ends with, where that is
/// valid UTF-8.
pub open spec fn program_text(module: Seq<u8>) -> Seq<char> {
    match path::file_name(module) {
        Some(name) => if vstd::utf8::valid_utf8(name) {
            vstd::utf8::decode_utf8(name)
        } else {
            DEFAULT_PROGRAM@
        },
        None => DEFAULT_PROGRAM@,
    }
}

/// The program name of a module.
pub fn program(module: &UnixPath) -> (r: String)
    ensures
        r@ == program_text(module@),
{
    match module.file_text() {
        Some(name) => name,
        None => DEFAULT_PROGRAM.to_owned(),
    }
}

impl<'a> GuestRun<'a> {
    /// The name the guest runs under.
    pub fn program_name(&self) -> (r: String)
        ensures
            r@ == program_text(self.module@),
    {
        program(self.module)
    }
}

/// Where a run is.
#[derive(Clone, Copy, Debug, PartialEq, Eq, Structural)]
pub enum RunStatus {
    Running,
    Exited(i32),
    /// Ended with a runtime error, which may carry an exit status.
    Failed(Option<i32>),
}

/// The exit status of a run that ended with a runtime error rather than an
/// exit.
pub const RUNTIME_ERROR_STATUS: i32 = 128;

/// The exit status of a finished run, if it has finished.
pub fn exit_status(status: RunStatus) -> (r: Option<i32>)
    ensures
        r == match status {
            RunStatus::Running => None,
            RunStatus::Exited(code) => Some(code),
            RunStatus::Failed(Some(code)) => Some(code),
            RunStatus::Failed(None) => Some(RUNTIME_ERROR_STATUS),
        },
{
    match status {
        RunStatus::Running => None,
        RunStatus::Exited(code) => Some(code),
        RunStatus::Failed(Some(code)) => Some(code),
        RunStatus::Failed(None) => Some(RUNTIME_ERROR_STATUS),
    }
}

/// The paths of the modules that are loaded, each once, in the order they
/// were loaded.
#[derive(Debug)]
pub struct LoadedModules {
    pub paths: Vec<UnixPath>,
}

impl LoadedModules {
    /// No two paths have the same components.
    pub open spec fn valid(self) -> bool {
        forall|i: int, j: int|
            0 <= i < j < self.paths@.len() ==> path::components((#[trigger] self.paths@[i])@)
                != path::components((#[trigger] self.paths@[j])@)
    }

    /// Whether the module at `index` is the one at `wanted`.
    pub open spec fn holds(self, index: int, wanted: Seq<u8>) -> bool {
        0 <= index < self.paths@.len() && path::components(self.paths@[index]@)
            == path::components(wanted)
    }

    /// Nothing is loaded.
    pub fn new() -> (r: Self)
        ensures
            r.valid(),
            r.paths@.len() == 0,
    {
        LoadedModules { paths: Vec::new() }
    }

    /// The index of the module at `wanted`, if it is loaded.
    pub fn find(&self, wanted: &UnixPath) -> (r: Option<usize>)
        ensures
            match r {
                Some(index) => self.holds(index as int, wanted@),
                None => forall|i: int| !self.holds(i, wanted@),
            },
    {
        let mut i: usize = 0;
        while i < self.paths.len()
            invariant
                i <= self.paths@.len(),
                forall|j: int| 0 <= j < i ==> !self.holds(j, wanted@),
            decreases self.paths@.len() - i,
        {
            if self.paths[i].is_same(wanted) {
                return Some(i);
            }
            i = i + 1;
        }
        None
    }

    /// Records a module that has been loaded.
    pub fn insert(&mut self, loaded: UnixPath)
        requires
            old(self).valid(),
            forall|i: int| !old(self).holds(i, loaded@),
        ensures
            final(self).valid(),
            final(self).paths@ == old(self).paths@.push(loaded),
    {
        self.paths.push(loaded);
        proof {
            assert forall|i: int, j: int| 0 <= i < j < self.paths@.len() implies path::components(
                (#[trigger] self.paths@[i])@,
            ) != path::components((#[trigger] self.paths@[j])@) by {
                if j == old(self).paths@.len() {
                    assert(!old(self).holds(i, loaded@));
                }
            }
        }
    }
}

/// A program is called what its module's file is: the last name of its path,
/// and a name of its own only where that is no text.
pub proof fn law_a_program_is_named_after_its_file(dir: Seq<u8>, name: Seq<char>, file: Seq<u8>)
    requires
        dir.len() > 0,
        path::is_name(vstd::utf8::encode_utf8(name)),
        path::is_name(file),
    ensures
        program_text(path::joined(dir, vstd::utf8::encode_utf8(name))) == name,
        !vstd::utf8::valid_utf8(file) ==> program_text(path::joined(dir, file)) == "module"@,
        path::file_name(dir) is None ==> program_text(dir) == "module"@,
{
    let spelled = vstd::utf8::encode_utf8(name);
    path::law_an_entry_stands_below_its_directory(dir, spelled, file);
    path::law_an_entry_stands_below_its_directory(dir, file, spelled);
    vstd::utf8::encode_utf8_valid_utf8(name);
    vstd::utf8::encode_utf8_decode_utf8(name);
}

} // verus!
