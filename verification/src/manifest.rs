//! Service package manifests: what a package declares, checked against what
//! the filesystem says of the paths it names.

use crate::bytes;
use crate::path;
use crate::path::UnixPath;
use crate::pattern;
use crate::text;
use vstd::prelude::*;

verus! {

/// A validated service package manifest.
#[derive(Debug)]
pub struct Manifest {
    pub service: Service,
    pub prepare: Option<Prepare>,
    pub guest: Guest,
    pub initializer: Option<Initializer>,
    pub directory: UnixPath,
}

/// The identity of a service package.
#[derive(Debug)]
pub struct Service {
    pub name: String,
    pub version: String,
    /// Import namespaces the service's modules may use beyond the baseline.
    pub extensions: Vec<String>,
}

/// Optional filesystem preparation performed before the serving run.
#[derive(Debug)]
pub struct Prepare {
    /// Where each mount stands in the guest, with the directory behind it.
    pub fs: Vec<(UnixPath, UnixPath)>,
    pub module: Option<UnixPath>,
    pub args: Vec<String>,
    pub stdin_file: Option<UnixPath>,
}

/// The serving module and its runtime settings.
#[derive(Debug)]
pub struct Guest {
    pub module: UnixPath,
    pub args: Vec<String>,
    pub listen_port: u16,
    /// Optional proof the server is serving: bytes the host writes to the
    /// guest's endpoint and a pattern its response must match before the
    /// guest is reported ready. Absent, listening is readiness.
    pub ready: Option<ReadyProbe>,
}

/// A readiness probe: what to send, empty where the server speaks first, and
/// the pattern of what a serving guest answers.
#[derive(Debug)]
pub struct ReadyProbe {
    pub send: Vec<u8>,
    pub matches: String,
}

/// An optional module used to initialize the serving guest.
#[derive(Debug)]
pub struct Initializer {
    pub module: UnixPath,
    pub args: Vec<String>,
}

/// A manifest as it is written, before its paths are resolved.
#[derive(Debug)]
pub struct RawManifest {
    pub service: Service,
    pub prepare: Option<RawPrepare>,
    pub guest: RawGuest,
    pub initializer: Option<RawInitializer>,
}

#[derive(Debug)]
pub struct RawPrepare {
    /// The mounts in the order of their places in the guest.
    pub fs: Vec<(UnixPath, UnixPath)>,
    pub module: Option<UnixPath>,
    pub args: Vec<String>,
    pub stdin_file: Option<UnixPath>,
}

#[derive(Debug)]
pub struct RawGuest {
    pub module: UnixPath,
    pub args: Vec<String>,
    pub listen_port: u16,
    pub ready: Option<RawReadyProbe>,
}

#[derive(Debug)]
pub struct RawReadyProbe {
    pub send: String,
    pub matches: String,
}

#[derive(Debug)]
pub struct RawInitializer {
    pub module: UnixPath,
    pub args: Vec<String>,
}

/// Whether the mounts stand in the order of their places in the guest, each
/// place once.
pub open spec fn places_in_order(mounts: Seq<(UnixPath, UnixPath)>) -> bool {
    forall|i: int, j: int|
        0 <= i < j < mounts.len() ==> path::path_less(
            (#[trigger] mounts[i]).0@,
            (#[trigger] mounts[j]).0@,
        )
}

/// Whether a mount at `place` stands at `at`: those before it are at earlier
/// places, and the one there, if any, is not.
pub open spec fn stands_at(mounts: Seq<(UnixPath, UnixPath)>, place: UnixPath, at: int) -> bool {
    &&& 0 <= at <= mounts.len()
    &&& forall|j: int| 0 <= j < at ==> path::path_less((#[trigger] mounts[j]).0@, place@)
    &&& at < mounts.len() ==> !path::path_less(mounts[at].0@, place@)
}

/// The mounts with one of `source` at `place`, which stands at `at`: it takes
/// the source of the mount that is at this place already, or is put in between.
pub open spec fn mounted(
    mounts: Seq<(UnixPath, UnixPath)>,
    place: UnixPath,
    source: UnixPath,
    at: int,
) -> Seq<(UnixPath, UnixPath)> {
    if at < mounts.len() && !path::path_less(place@, mounts[at].0@) {
        mounts.update(at, (mounts[at].0, source))
    } else {
        mounts.insert(at, (place, source))
    }
}

impl RawPrepare {
    /// Adds a mount of `source` at `place` in the guest. A mount at the same
    /// place is replaced.
    pub fn mount(&mut self, place: UnixPath, source: UnixPath)
        requires
            places_in_order(old(self).fs@),
        ensures
            places_in_order(final(self).fs@),
            exists|at: int| #[trigger]
                stands_at(old(self).fs@, place, at) && final(self).fs@ == mounted(
                    old(self).fs@,
                    place,
                    source,
                    at,
                ),
            *final(self) == (RawPrepare { fs: final(self).fs, ..*old(self) }),
    {
        let ghost before = self.fs@;
        let mut k: usize = 0;
        while k < self.fs.len() && self.fs[k].0.is_before(&place)
            invariant
                *self == *old(self),
                before == self.fs@,
                k <= self.fs@.len(),
                forall|j: int| 0 <= j < k ==> path::path_less((#[trigger] before[j]).0@, place@),
            decreases self.fs@.len() - k,
        {
            k = k + 1;
        }
        proof {
            assert(stands_at(before, place, k as int));
        }
        if k < self.fs.len() && !place.is_before(&self.fs[k].0) {
            self.fs[k].1 = source;
            proof {
                assert(self.fs@ =~= mounted(before, place, source, k as int));
                assert forall|i: int, j: int|
                    0 <= i < j < self.fs@.len() implies path::path_less(
                    (#[trigger] self.fs@[i]).0@,
                    (#[trigger] self.fs@[j]).0@,
                ) by {
                    assert(path::path_less(before[i].0@, before[j].0@));
                }
            }
            return;
        }
        self.fs.insert(k, (place, source));
        proof {
            let now = self.fs@;
            assert(now =~= mounted(before, place, source, k as int));
            assert forall|i: int, j: int| 0 <= i < j < now.len() implies path::path_less(
                (#[trigger] now[i]).0@,
                (#[trigger] now[j]).0@,
            ) by {
                let a = if i < k {
                    i
                } else {
                    i - 1
                };
                let b = if j < k {
                    j
                } else {
                    j - 1
                };
                if i != k {
                    assert(now[i] == before[a]);
                }
                if j != k {
                    assert(now[j] == before[b]);
                }
                if i != k && j != k {
                    assert(path::path_less(before[a].0@, before[b].0@));
                } else if i == k && b > k {
                    assert(path::path_less(before[k as int].0@, before[b].0@));
                    path::lemma_parts_less_transitive(
                        path::components(place@),
                        path::components(before[k as int].0@),
                        path::components(before[b].0@),
                    );
                }
            }
        }
    }
}

impl RawManifest {
    /// The mounts of the prepare table stand in order, each place once.
    pub open spec fn well_formed(self) -> bool {
        self.prepare matches Some(prepare) ==> places_in_order(prepare.fs@)
    }
}

impl Manifest {
    /// The mounts of the prepare table stand in order, each place once.
    pub open spec fn well_formed(self) -> bool {
        self.prepare matches Some(prepare) ==> places_in_order(prepare.fs@)
    }
}

/// What the filesystem says of a path, symlinks followed.
#[derive(Debug)]
pub struct PathFacts {
    pub path: UnixPath,
    pub is_file: bool,
    pub is_dir: bool,
    /// What the path resolves to, or why it does not.
    pub canonical: Result<UnixPath, String>,
}

/// What is wrong with a byte string.
#[derive(Clone, Copy, Debug, PartialEq, Eq, Structural)]
pub enum ByteStringError {
    /// `\x` without two hexadecimal digits behind it.
    HexDigits,
    /// A backslash at the end.
    EndOfString,
    /// A backslash before a character it does not go with.
    Escape(char),
    /// A character that has to be escaped.
    Character(char),
}

/// What `bytes` followed by what `rest` decodes to are.
pub open spec fn followed(bytes: Seq<u8>, rest: Result<Seq<u8>, ByteStringError>) -> Result<
    Seq<u8>,
    ByteStringError,
> {
    match rest {
        Ok(rest) => Ok(bytes + rest),
        Err(error) => Err(error),
    }
}

/// What a byte string stands for: printable ASCII verbatim, `\xNN` for any
/// byte, `\\` for a backslash. Everything else is refused.
pub open spec fn decoded(s: Seq<char>) -> Result<Seq<u8>, ByteStringError>
    decreases s.len(),
{
    if s.len() == 0 {
        Ok(Seq::empty())
    } else if s[0] == '\\' {
        if s.len() == 1 {
            Err(ByteStringError::EndOfString)
        } else if s[1] == '\\' {
            followed(seq![92u8], decoded(s.skip(2)))
        } else if s[1] == 'x' {
            if s.len() >= 4 && text::digit_value(s[2], 16) is Some && text::digit_value(
                s[3],
                16,
            ) is Some {
                let high = text::digit_value(s[2], 16)->0;
                let low = text::digit_value(s[3], 16)->0;
                followed(seq![(high * 16 + low) as u8], decoded(s.skip(4)))
            } else {
                Err(ByteStringError::HexDigits)
            }
        } else {
            Err(ByteStringError::Escape(s[1]))
        }
    } else if 32 <= s[0] as int <= 126 {
        followed(seq![(s[0] as int) as u8], decoded(s.skip(1)))
    } else {
        Err(ByteStringError::Character(s[0]))
    }
}

proof fn lemma_followed(a: Seq<u8>, b: Seq<u8>, rest: Result<Seq<u8>, ByteStringError>)
    ensures
        followed(a, followed(b, rest)) == followed(a + b, rest),
{
    if let Ok(rest) = rest {
        assert(a + (b + rest) =~= (a + b) + rest);
    }
}

/// The byte of a printable ASCII character.
fn printable(c: char) -> (r: Option<u8>)
    ensures
        r == if 32 <= c as int <= 126 {
            Some((c as int) as u8)
        } else {
            None
        },
{
    let n: u32 = c as u32;
    if 32 <= n && n <= 126 {
        Some(n as u8)
    } else {
        None
    }
}

/// Decodes a manifest byte string. A typo fails the load rather than the
/// probe, and the manifest stays reviewable.
pub fn decode_byte_string(source: &str) -> (r: Result<Vec<u8>, ByteStringError>)
    ensures
        match decoded(source@) {
            Ok(bytes) => r is Ok && (r->Ok_0)@ == bytes,
            Err(error) => r == Err::<Vec<u8>, ByteStringError>(error),
        },
{
    let s = text::characters(source);
    let mut bytes: Vec<u8> = Vec::new();
    let mut i: usize = 0;
    proof {
        assert(s@.skip(0) =~= s@);
        lemma_followed_nothing(decoded(s@));
    }
    while i < s.len()
        invariant
            s@ == source@,
            i <= s@.len(),
            decoded(s@) == followed(bytes@, decoded(s@.skip(i as int))),
        decreases s@.len() - i,
    {
        let ghost rest = s@.skip(i as int);
        let ghost before = bytes@;
        let c: char = s[i];
        if c == '\\' {
            if i + 1 >= s.len() {
                return Err(ByteStringError::EndOfString);
            }
            let escaped: char = s[i + 1];
            if escaped == '\\' {
                bytes.push(92);
                proof {
                    lemma_followed(before, seq![92u8], decoded(rest.skip(2)));
                    assert(before + seq![92u8] =~= bytes@);
                    assert(rest.skip(2) =~= s@.skip(i + 2));
                }
                i = i + 2;
            } else if escaped == 'x' {
                if s.len() - i < 4 {
                    return Err(ByteStringError::HexDigits);
                }
                match (text::hex_value(s[i + 2]), text::hex_value(s[i + 3])) {
                    (Some(high), Some(low)) => {
                        let byte: u8 = high * 16 + low;
                        bytes.push(byte);
                        proof {
                            lemma_followed(before, seq![byte], decoded(rest.skip(4)));
                            assert(before + seq![byte] =~= bytes@);
                            assert(rest.skip(4) =~= s@.skip(i + 4));
                        }
                        i = i + 4;
                    },
                    _ => {
                        return Err(ByteStringError::HexDigits);
                    },
                }
            } else {
                return Err(ByteStringError::Escape(escaped));
            }
        } else if let Some(byte) = printable(c) {
            bytes.push(byte);
            proof {
                lemma_followed(before, seq![byte], decoded(rest.skip(1)));
                assert(before + seq![byte] =~= bytes@);
                assert(rest.skip(1) =~= s@.skip(i + 1));
            }
            i = i + 1;
        } else {
            return Err(ByteStringError::Character(c));
        }
    }
    proof {
        assert(s@.skip(i as int).len() == 0);
        assert(bytes@ + Seq::<u8>::empty() =~= bytes@);
    }
    Ok(bytes)
}

proof fn lemma_followed_nothing(rest: Result<Seq<u8>, ByteStringError>)
    ensures
        followed(Seq::empty(), rest) == rest,
{
    if let Ok(bytes) = rest {
        assert(Seq::<u8>::empty() + bytes =~= bytes);
    }
}

/// What a package path is for.
#[derive(Clone, Copy, Debug, PartialEq, Eq, Structural)]
pub enum Role {
    MountSource,
    PrepareModule,
    StdinFile,
    GuestModule,
    InitializerModule,
}

/// What a path is for, in words.
pub open spec fn role_text(role: Role) -> Seq<char> {
    match role {
        Role::MountSource => "prepare mount source"@,
        Role::PrepareModule => "prepare module"@,
        Role::StdinFile => "prepare stdin file"@,
        Role::GuestModule => "guest module"@,
        Role::InitializerModule => "initializer module"@,
    }
}

impl Role {
    /// What the path is for, in words.
    pub fn text(self) -> (r: &'static str)
        ensures
            r@ == role_text(self),
    {
        match self {
            Role::MountSource => "prepare mount source",
            Role::PrepareModule => "prepare module",
            Role::StdinFile => "prepare stdin file",
            Role::GuestModule => "guest module",
            Role::InitializerModule => "initializer module",
        }
    }
}

/// Why a manifest is refused.
#[derive(Debug)]
pub enum ManifestError {
    EmptyName,
    EmptyVersion,
    /// A mount's place in the guest is not absolute.
    MountNotAbsolute(UnixPath),
    /// A mount's place in the guest has a `..` in it.
    MountClimbs(UnixPath),
    /// A package path is more than names and `.`.
    NotPlain(Role, UnixPath),
    NotADirectory(UnixPath),
    NotAFile(Role, UnixPath),
    /// What the path resolves to cannot be told.
    Unresolved(Role, UnixPath, String),
    /// What the path resolves to is outside the package.
    Outside(Role, UnixPath),
    /// The bytes a probe sends do not decode.
    Send(ByteStringError),
    /// The pattern a probe waits for does not compile.
    Pattern(String),
}

/// Why a manifest is refused, over the paths themselves.
pub enum Fault {
    EmptyName,
    EmptyVersion,
    MountNotAbsolute(Seq<u8>),
    MountClimbs(Seq<u8>),
    NotPlain(Role, Seq<u8>),
    NotADirectory(Seq<u8>),
    NotAFile(Role, Seq<u8>),
    Unresolved(Role, Seq<u8>, Seq<char>),
    Outside(Role, Seq<u8>),
    Send(ByteStringError),
    Pattern(Seq<char>),
}

impl View for ManifestError {
    type V = Fault;

    open spec fn view(&self) -> Fault {
        match self {
            ManifestError::EmptyName => Fault::EmptyName,
            ManifestError::EmptyVersion => Fault::EmptyVersion,
            ManifestError::MountNotAbsolute(path) => Fault::MountNotAbsolute(path@),
            ManifestError::MountClimbs(path) => Fault::MountClimbs(path@),
            ManifestError::NotPlain(role, path) => Fault::NotPlain(*role, path@),
            ManifestError::NotADirectory(path) => Fault::NotADirectory(path@),
            ManifestError::NotAFile(role, path) => Fault::NotAFile(*role, path@),
            ManifestError::Unresolved(role, path, cause) => Fault::Unresolved(
                *role,
                path@,
                cause@,
            ),
            ManifestError::Outside(role, path) => Fault::Outside(*role, path@),
            ManifestError::Send(error) => Fault::Send(*error),
            ManifestError::Pattern(error) => Fault::Pattern(error@),
        }
    }
}

/// What is known of a path: the first of the facts that is about it.
pub open spec fn facts_of(facts: Seq<PathFacts>, path: Seq<u8>) -> Option<PathFacts>
    decreases facts.len(),
{
    if facts.len() == 0 {
        None
    } else if facts[0].path@ == path {
        Some(facts[0])
    } else {
        facts_of(facts.drop_first(), path)
    }
}

/// What is wrong with what a path resolves to: it must stay under the package
/// directory, so nothing outside the package's digest is used.
pub open spec fn containment_fault(
    role: Role,
    resolved: Seq<u8>,
    facts: PathFacts,
    canonical: Seq<u8>,
) -> Option<Fault> {
    match facts.canonical {
        Err(cause) => Some(Fault::Unresolved(role, resolved, cause@)),
        Ok(target) => if path::is_within(target@, canonical) {
            None
        } else {
            Some(Fault::Outside(role, resolved))
        },
    }
}

/// What is wrong with a path of a package file.
pub open spec fn file_fault(
    role: Role,
    file: Seq<u8>,
    directory: Seq<u8>,
    canonical: Seq<u8>,
    facts: Seq<PathFacts>,
) -> Option<Fault> {
    let resolved = path::joined(directory, file);
    if !path::is_plain(file) {
        Some(Fault::NotPlain(role, file))
    } else {
        match facts_of(facts, resolved) {
            Some(known) => if known.is_file {
                containment_fault(role, resolved, known, canonical)
            } else {
                Some(Fault::NotAFile(role, resolved))
            },
            None => Some(Fault::NotAFile(role, resolved)),
        }
    }
}

/// What is wrong with an optional path of a package file.
pub open spec fn optional_file_fault(
    role: Role,
    file: Option<UnixPath>,
    directory: Seq<u8>,
    canonical: Seq<u8>,
    facts: Seq<PathFacts>,
) -> Option<Fault> {
    match file {
        Some(file) => file_fault(role, file@, directory, canonical, facts),
        None => None,
    }
}

/// What is wrong with a mount.
pub open spec fn mount_fault(
    guest: Seq<u8>,
    source: Seq<u8>,
    directory: Seq<u8>,
    canonical: Seq<u8>,
    facts: Seq<PathFacts>,
) -> Option<Fault> {
    let resolved = path::joined(directory, source);
    if !path::is_absolute(guest) {
        Some(Fault::MountNotAbsolute(guest))
    } else if path::climbs(guest) {
        Some(Fault::MountClimbs(guest))
    } else if !path::is_plain(source) {
        Some(Fault::NotPlain(Role::MountSource, source))
    } else {
        match facts_of(facts, resolved) {
            Some(known) => if known.is_dir {
                containment_fault(Role::MountSource, resolved, known, canonical)
            } else {
                Some(Fault::NotADirectory(resolved))
            },
            None => Some(Fault::NotADirectory(resolved)),
        }
    }
}

/// The first thing wrong with the mounts.
pub open spec fn mounts_fault(
    mounts: Seq<(UnixPath, UnixPath)>,
    directory: Seq<u8>,
    canonical: Seq<u8>,
    facts: Seq<PathFacts>,
) -> Option<Fault>
    decreases mounts.len(),
{
    if mounts.len() == 0 {
        None
    } else {
        match mount_fault(mounts[0].0@, mounts[0].1@, directory, canonical, facts) {
            Some(fault) => Some(fault),
            None => mounts_fault(mounts.drop_first(), directory, canonical, facts),
        }
    }
}

/// The first of two faults.
pub open spec fn either(first: Option<Fault>, second: Option<Fault>) -> Option<Fault> {
    match first {
        Some(fault) => Some(fault),
        None => second,
    }
}

/// The first thing wrong with a prepare table.
pub open spec fn prepare_fault(
    raw: RawPrepare,
    directory: Seq<u8>,
    canonical: Seq<u8>,
    facts: Seq<PathFacts>,
) -> Option<Fault> {
    either(
        mounts_fault(raw.fs@, directory, canonical, facts),
        either(
            optional_file_fault(Role::PrepareModule, raw.module, directory, canonical, facts),
            optional_file_fault(Role::StdinFile, raw.stdin_file, directory, canonical, facts),
        ),
    )
}

/// What is wrong with a readiness probe.
pub open spec fn probe_fault(raw: RawReadyProbe) -> Option<Fault> {
    match decoded(raw.send@) {
        Err(error) => Some(Fault::Send(error)),
        Ok(_) => match pattern::pattern_error(raw.matches@) {
            Some(error) => Some(Fault::Pattern(error)),
            None => None,
        },
    }
}

/// The first thing wrong with a manifest, in the order of its tables.
pub open spec fn manifest_fault(
    raw: RawManifest,
    directory: Seq<u8>,
    canonical: Seq<u8>,
    facts: Seq<PathFacts>,
) -> Option<Fault> {
    if raw.service.name@.len() == 0 {
        Some(Fault::EmptyName)
    } else if raw.service.version@.len() == 0 {
        Some(Fault::EmptyVersion)
    } else {
        either(
            match raw.prepare {
                Some(prepare) => prepare_fault(prepare, directory, canonical, facts),
                None => None,
            },
            either(
                file_fault(Role::GuestModule, raw.guest.module@, directory, canonical, facts),
                either(
                    match raw.guest.ready {
                        Some(probe) => probe_fault(probe),
                        None => None,
                    },
                    match raw.initializer {
                        Some(initializer) => file_fault(
                            Role::InitializerModule,
                            initializer.module@,
                            directory,
                            canonical,
                            facts,
                        ),
                        None => None,
                    },
                ),
            ),
        )
    }
}

/// Whether `file` is the optional path `raw`, taken in the directory.
pub open spec fn optional_file_resolved(
    raw: Option<UnixPath>,
    directory: Seq<u8>,
    file: Option<UnixPath>,
) -> bool {
    match (raw, file) {
        (Some(raw), Some(file)) => file@ == path::joined(directory, raw@),
        (None, None) => true,
        _ => false,
    }
}

/// Whether the mounts are those of the table, their sources taken in the
/// directory.
pub open spec fn mounts_resolved(
    raw: Seq<(UnixPath, UnixPath)>,
    directory: Seq<u8>,
    mounts: Seq<(UnixPath, UnixPath)>,
) -> bool {
    &&& mounts.len() == raw.len()
    &&& forall|i: int|
        0 <= i < mounts.len() ==> (#[trigger] mounts[i]).0@ == raw[i].0@ && mounts[i].1@
            == path::joined(directory, raw[i].1@)
}

/// Whether `prepare` is the table with its paths resolved.
pub open spec fn prepare_resolved(raw: RawPrepare, directory: Seq<u8>, prepare: Prepare) -> bool {
    &&& mounts_resolved(raw.fs@, directory, prepare.fs@)
    &&& optional_file_resolved(raw.module, directory, prepare.module)
    &&& optional_file_resolved(raw.stdin_file, directory, prepare.stdin_file)
    &&& prepare.args == raw.args
}

/// Whether `manifest` is what the tables say, its paths taken in the
/// directory and the probe's bytes decoded.
pub open spec fn manifest_resolved(raw: RawManifest, directory: Seq<u8>, manifest: Manifest) -> bool {
    &&& manifest.service == raw.service
    &&& manifest.directory@ == directory
    &&& match (raw.prepare, manifest.prepare) {
        (Some(raw), Some(prepare)) => prepare_resolved(raw, directory, prepare),
        (None, None) => true,
        _ => false,
    }
    &&& manifest.guest.module@ == path::joined(directory, raw.guest.module@)
    &&& manifest.guest.args == raw.guest.args
    &&& manifest.guest.listen_port == raw.guest.listen_port
    &&& match (raw.guest.ready, manifest.guest.ready) {
        (Some(raw), Some(probe)) => decoded(raw.send@) == Ok::<Seq<u8>, ByteStringError>(
            probe.send@,
        ) && probe.matches == raw.matches,
        (None, None) => true,
        _ => false,
    }
    &&& match (raw.initializer, manifest.initializer) {
        (Some(raw), Some(initializer)) => initializer.module@ == path::joined(
            directory,
            raw.module@,
        ) && initializer.args == raw.args,
        (None, None) => true,
        _ => false,
    }
}

/// The facts about a path.
fn find_facts<'a>(facts: &'a Vec<PathFacts>, wanted: &UnixPath) -> (r: Option<&'a PathFacts>)
    ensures
        match facts_of(facts@, wanted@) {
            Some(known) => r is Some && *(r->0) == known,
            None => r is None,
        },
{
    let mut i: usize = 0;
    proof {
        assert(facts@.skip(0) =~= facts@);
    }
    while i < facts.len()
        invariant
            i <= facts@.len(),
            facts_of(facts@, wanted@) == facts_of(facts@.skip(i as int), wanted@),
        decreases facts@.len() - i,
    {
        proof {
            assert(facts@.skip(i as int).drop_first() =~= facts@.skip(i + 1));
        }
        if bytes::is_same(&facts[i].path.bytes, &wanted.bytes) {
            return Some(&facts[i]);
        }
        i = i + 1;
    }
    None
}

/// Whether what the path resolves to stays in the package.
fn ensure_contained(role: Role, resolved: &UnixPath, known: &PathFacts, canonical: &UnixPath) -> (r:
    Result<(), ManifestError>)
    ensures
        match containment_fault(role, resolved@, *known, canonical@) {
            Some(fault) => r is Err && (r->Err_0)@ == fault,
            None => r is Ok,
        },
{
    match &known.canonical {
        Err(cause) => Err(ManifestError::Unresolved(role, resolved.clone(), cause.clone())),
        Ok(target) => if target.is_within(canonical) {
            Ok(())
        } else {
            Err(ManifestError::Outside(role, resolved.clone()))
        },
    }
}

/// A package path must be plain names and `.`, nothing else: no root and no
/// `..`, so it cannot name anything above the manifest's directory.
pub fn reject_escape(file: &UnixPath, role: Role) -> (r: Result<(), ManifestError>)
    ensures
        r is Ok <==> path::is_plain(file@),
        r is Err ==> (r->Err_0)@ == Fault::NotPlain(role, file@),
{
    if file.is_plain() {
        Ok(())
    } else {
        Err(ManifestError::NotPlain(role, file.clone()))
    }
}

/// Resolves a package file.
pub fn resolve_file(
    directory: &UnixPath,
    canonical: &UnixPath,
    file: &UnixPath,
    role: Role,
    facts: &Vec<PathFacts>,
) -> (r: Result<UnixPath, ManifestError>)
    ensures
        match file_fault(role, file@, directory@, canonical@, facts@) {
            Some(fault) => r is Err && (r->Err_0)@ == fault,
            None => r is Ok && (r->Ok_0)@ == path::joined(directory@, file@),
        },
{
    match reject_escape(file, role) {
        Ok(()) => {},
        Err(error) => {
            return Err(error);
        },
    }
    let resolved = directory.join(file);
    match find_facts(facts, &resolved) {
        Some(known) => {
            if !known.is_file {
                return Err(ManifestError::NotAFile(role, resolved));
            }
            match ensure_contained(role, &resolved, known, canonical) {
                Ok(()) => Ok(resolved),
                Err(error) => Err(error),
            }
        },
        None => Err(ManifestError::NotAFile(role, resolved)),
    }
}

/// Resolves a module: a package file.
pub fn resolve_module(
    directory: &UnixPath,
    canonical: &UnixPath,
    file: &UnixPath,
    role: Role,
    facts: &Vec<PathFacts>,
) -> (r: Result<UnixPath, ManifestError>)
    ensures
        match file_fault(role, file@, directory@, canonical@, facts@) {
            Some(fault) => r is Err && (r->Err_0)@ == fault,
            None => r is Ok && (r->Ok_0)@ == path::joined(directory@, file@),
        },
{
    resolve_file(directory, canonical, file, role, facts)
}

/// Resolves a package file, if there is one.
fn resolve_optional(
    directory: &UnixPath,
    canonical: &UnixPath,
    file: &Option<UnixPath>,
    role: Role,
    facts: &Vec<PathFacts>,
) -> (r: Result<Option<UnixPath>, ManifestError>)
    ensures
        match optional_file_fault(role, *file, directory@, canonical@, facts@) {
            Some(fault) => r is Err && (r->Err_0)@ == fault,
            None => r is Ok && optional_file_resolved(*file, directory@, r->Ok_0),
        },
{
    match file {
        Some(file) => match resolve_file(directory, canonical, file, role, facts) {
            Ok(resolved) => Ok(Some(resolved)),
            Err(error) => Err(error),
        },
        None => Ok(None),
    }
}

/// Resolves a mount's source.
fn resolve_mount(
    guest: &UnixPath,
    source: &UnixPath,
    directory: &UnixPath,
    canonical: &UnixPath,
    facts: &Vec<PathFacts>,
) -> (r: Result<UnixPath, ManifestError>)
    ensures
        match mount_fault(guest@, source@, directory@, canonical@, facts@) {
            Some(fault) => r is Err && (r->Err_0)@ == fault,
            None => r is Ok && (r->Ok_0)@ == path::joined(directory@, source@),
        },
{
    if !guest.is_absolute() {
        return Err(ManifestError::MountNotAbsolute(guest.clone()));
    }
    if guest.climbs() {
        return Err(ManifestError::MountClimbs(guest.clone()));
    }
    match reject_escape(source, Role::MountSource) {
        Ok(()) => {},
        Err(error) => {
            return Err(error);
        },
    }
    let resolved = directory.join(source);
    match find_facts(facts, &resolved) {
        Some(known) => {
            if !known.is_dir {
                return Err(ManifestError::NotADirectory(resolved));
            }
            match ensure_contained(Role::MountSource, &resolved, known, canonical) {
                Ok(()) => Ok(resolved),
                Err(error) => Err(error),
            }
        },
        None => Err(ManifestError::NotADirectory(resolved)),
    }
}

/// Resolving the sources of mounts leaves their places in order.
proof fn lemma_places(
    raw: Seq<(UnixPath, UnixPath)>,
    directory: Seq<u8>,
    mounts: Seq<(UnixPath, UnixPath)>,
)
    requires
        places_in_order(raw),
        mounts_resolved(raw, directory, mounts),
    ensures
        places_in_order(mounts),
{
    assert forall|i: int, j: int| 0 <= i < j < mounts.len() implies path::path_less(
        (#[trigger] mounts[i]).0@,
        (#[trigger] mounts[j]).0@,
    ) by {
        assert(path::path_less(raw[i].0@, raw[j].0@));
    }
}

/// Resolves the prepare table.
pub fn resolve_prepare(
    raw: RawPrepare,
    directory: &UnixPath,
    canonical: &UnixPath,
    facts: &Vec<PathFacts>,
) -> (r: Result<Prepare, ManifestError>)
    ensures
        match prepare_fault(raw, directory@, canonical@, facts@) {
            Some(fault) => r is Err && (r->Err_0)@ == fault,
            None => r is Ok && prepare_resolved(raw, directory@, r->Ok_0),
        },
{
    let mut mounts: Vec<(UnixPath, UnixPath)> = Vec::new();
    let mut i: usize = 0;
    proof {
        assert(raw.fs@.skip(0) =~= raw.fs@);
    }
    while i < raw.fs.len()
        invariant
            i <= raw.fs@.len(),
            mounts@.len() == i,
            forall|j: int|
                0 <= j < i ==> (#[trigger] mounts@[j]).0@ == raw.fs@[j].0@ && mounts@[j].1@
                    == path::joined(directory@, raw.fs@[j].1@),
            mounts_fault(raw.fs@, directory@, canonical@, facts@) == mounts_fault(
                raw.fs@.skip(i as int),
                directory@,
                canonical@,
                facts@,
            ),
        decreases raw.fs@.len() - i,
    {
        proof {
            assert(raw.fs@.skip(i as int).drop_first() =~= raw.fs@.skip(i + 1));
        }
        let guest = &raw.fs[i].0;
        let source = &raw.fs[i].1;
        match resolve_mount(guest, source, directory, canonical, facts) {
            Ok(resolved) => {
                mounts.push((guest.clone(), resolved));
            },
            Err(error) => {
                return Err(error);
            },
        }
        i = i + 1;
    }
    let module = match resolve_optional(
        directory,
        canonical,
        &raw.module,
        Role::PrepareModule,
        facts,
    ) {
        Ok(module) => module,
        Err(error) => {
            return Err(error);
        },
    };
    let stdin_file = match resolve_optional(
        directory,
        canonical,
        &raw.stdin_file,
        Role::StdinFile,
        facts,
    ) {
        Ok(stdin_file) => stdin_file,
        Err(error) => {
            return Err(error);
        },
    };
    Ok(Prepare { fs: mounts, module, args: raw.args, stdin_file })
}

/// Checks a readiness probe.
fn resolve_probe(raw: RawReadyProbe) -> (r: Result<ReadyProbe, ManifestError>)
    ensures
        match probe_fault(raw) {
            Some(fault) => r is Err && (r->Err_0)@ == fault,
            None => r is Ok && decoded(raw.send@) == Ok::<Seq<u8>, ByteStringError>(
                (r->Ok_0).send@,
            ) && (r->Ok_0).matches == raw.matches,
        },
{
    let send = match decode_byte_string(raw.send.as_str()) {
        Ok(send) => send,
        Err(error) => {
            return Err(ManifestError::Send(error));
        },
    };
    match pattern::refusal(raw.matches.as_str()) {
        Some(error) => Err(ManifestError::Pattern(error)),
        None => Ok(ReadyProbe { send, matches: raw.matches }),
    }
}

impl Manifest {
    /// Validates a manifest, resolving package paths relative to its
    /// directory, whose canonical path is `canonical`. A package path must
    /// stay inside the package: plain relative components only, and what it
    /// resolves to, through any symlink, under the manifest's directory, so a
    /// package cannot reference files its digest does not cover. `facts` hold
    /// what the filesystem says of the paths in [`package_paths`]; a path they
    /// leave out is taken not to exist.
    pub fn load(
        raw: RawManifest,
        directory: UnixPath,
        canonical: &UnixPath,
        facts: &Vec<PathFacts>,
    ) -> (r: Result<Manifest, ManifestError>)
        requires
            raw.well_formed(),
        ensures
            match manifest_fault(raw, directory@, canonical@, facts@) {
                Some(fault) => r is Err && (r->Err_0)@ == fault,
                None => r is Ok && manifest_resolved(raw, directory@, r->Ok_0)
                    && (r->Ok_0).well_formed(),
            },
    {
        if raw.service.name.as_str().is_empty() {
            return Err(ManifestError::EmptyName);
        }
        if raw.service.version.as_str().is_empty() {
            return Err(ManifestError::EmptyVersion);
        }
        let prepare = match raw.prepare {
            Some(table) => match resolve_prepare(table, &directory, canonical, facts) {
                Ok(prepare) => {
                    proof {
                        lemma_places(table.fs@, directory@, prepare.fs@);
                    }
                    Some(prepare)
                },
                Err(error) => {
                    return Err(error);
                },
            },
            None => None,
        };
        let module = match resolve_module(
            &directory,
            canonical,
            &raw.guest.module,
            Role::GuestModule,
            facts,
        ) {
            Ok(module) => module,
            Err(error) => {
                return Err(error);
            },
        };
        let ready = match raw.guest.ready {
            Some(probe) => match resolve_probe(probe) {
                Ok(probe) => Some(probe),
                Err(error) => {
                    return Err(error);
                },
            },
            None => None,
        };
        let initializer = match raw.initializer {
            Some(table) => match resolve_module(
                &directory,
                canonical,
                &table.module,
                Role::InitializerModule,
                facts,
            ) {
                Ok(module) => Some(Initializer { module, args: table.args }),
                Err(error) => {
                    return Err(error);
                },
            },
            None => None,
        };
        Ok(
            Manifest {
                service: raw.service,
                prepare,
                guest: Guest {
                    module,
                    args: raw.guest.args,
                    listen_port: raw.guest.listen_port,
                    ready,
                },
                initializer,
                directory,
            },
        )
    }

    /// The directory containing this manifest.
    pub fn directory(&self) -> (r: &UnixPath)
        ensures
            *r == self.directory,
    {
        &self.directory
    }

    /// The paths of the modules this manifest references, in execution order.
    pub open spec fn module_paths(self) -> Seq<Seq<u8>> {
        let prepare = match self.prepare {
            Some(prepare) => match prepare.module {
                Some(module) => seq![module@],
                None => Seq::empty(),
            },
            None => Seq::empty(),
        };
        let initializer = match self.initializer {
            Some(initializer) => seq![initializer.module@],
            None => Seq::empty(),
        };
        prepare + seq![self.guest.module@] + initializer
    }

    /// Every module referenced by this manifest in execution order.
    pub fn modules(&self) -> (r: Vec<&UnixPath>)
        ensures
            Seq::new(r@.len(), |i: int| r@[i]@) == self.module_paths(),
    {
        let mut modules: Vec<&UnixPath> = Vec::new();
        if let Some(prepare) = &self.prepare {
            if let Some(module) = &prepare.module {
                modules.push(module);
            }
        }
        modules.push(&self.guest.module);
        if let Some(initializer) = &self.initializer {
            modules.push(&initializer.module);
        }
        proof {
            assert(Seq::new(modules@.len(), |i: int| modules@[i]@) =~= self.module_paths());
        }
        modules
    }
}

impl Prepare {
    /// The standard input of the prepare module, given what was read of the
    /// package file that holds it: nothing where the manifest names none.
    pub fn read_stdin(&self, read: Result<Vec<u8>, String>) -> (r: Result<Vec<u8>, String>)
        ensures
            match (self.stdin_file, read) {
                (None, _) => r is Ok && (r->Ok_0)@ == Seq::<u8>::empty(),
                (Some(_), Ok(contents)) => r == Ok::<Vec<u8>, String>(contents),
                (Some(file), Err(error)) => r is Err && (r->Err_0)@
                    == "failed to read prepare stdin file "@ + path::lossy(file@) + ": "@ + error@,
            },
    {
        match (&self.stdin_file, read) {
            (None, _) => Ok(Vec::new()),
            (Some(_), Ok(contents)) => Ok(contents),
            (Some(file), Err(error)) => {
                let mut out = "failed to read prepare stdin file ".to_owned();
                out.append(file.display().as_str());
                out.append(": ");
                out.append(error.as_str());
                Err(out)
            },
        }
    }
}

/// What is wrong with a byte string, in words.
pub open spec fn byte_string_error_text(error: ByteStringError) -> Seq<char> {
    match error {
        ByteStringError::HexDigits => "\\x needs two hex digits"@,
        ByteStringError::EndOfString => "unsupported escape at end of string"@,
        ByteStringError::Escape(c) => "unsupported escape \\"@.push(c),
        ByteStringError::Character(c) => "unsupported character "@ + text::char_debug(c)
            + "; escape bytes as \\xNN"@,
    }
}

impl ByteStringError {
    /// What is wrong, in words.
    pub fn text(self) -> (r: String)
        ensures
            r@ == byte_string_error_text(self),
    {
        match self {
            ByteStringError::HexDigits => "\\x needs two hex digits".to_owned(),
            ByteStringError::EndOfString => "unsupported escape at end of string".to_owned(),
            ByteStringError::Escape(c) => {
                let mut out = "unsupported escape \\".to_owned();
                out.push(c);
                out
            },
            ByteStringError::Character(c) => {
                let mut out = "unsupported character ".to_owned();
                out.append(text::debug_char(c).as_str());
                out.append("; escape bytes as \\xNN");
                out
            },
        }
    }
}

/// Why a manifest is refused, in words.
pub open spec fn fault_text(fault: Fault) -> Seq<char> {
    match fault {
        Fault::EmptyName => "service name must not be empty"@,
        Fault::EmptyVersion => "service version must not be empty"@,
        Fault::MountNotAbsolute(guest) => "prepare mount path "@ + path::lossy(guest)
            + " must be absolute"@,
        Fault::MountClimbs(guest) => "prepare mount path "@ + path::lossy(guest)
            + " must not contain '..'"@,
        Fault::NotPlain(role, file) => role_text(role) + " "@ + path::lossy(file)
            + " must be a plain relative path inside the package"@,
        Fault::NotADirectory(source) => "prepare mount source "@ + path::lossy(source)
            + " is not a directory"@,
        Fault::NotAFile(role, file) => role_text(role) + " "@ + path::lossy(file)
            + " is not a file"@,
        Fault::Unresolved(role, file, cause) => "failed to resolve "@ + role_text(role) + " "@
            + path::lossy(file) + ": "@ + cause,
        Fault::Outside(role, file) => role_text(role) + " "@ + path::lossy(file)
            + " resolves outside the package"@,
        Fault::Send(error) => "invalid ready probe send bytes: "@ + byte_string_error_text(error),
        Fault::Pattern(error) => "invalid ready probe pattern: "@ + error,
    }
}

impl ManifestError {
    /// Why the manifest is refused, in words.
    pub fn text(&self) -> (r: String)
        ensures
            r@ == fault_text(self@),
    {
        match self {
            ManifestError::EmptyName => "service name must not be empty".to_owned(),
            ManifestError::EmptyVersion => "service version must not be empty".to_owned(),
            ManifestError::MountNotAbsolute(guest) => {
                let mut out = "prepare mount path ".to_owned();
                out.append(guest.display().as_str());
                out.append(" must be absolute");
                out
            },
            ManifestError::MountClimbs(guest) => {
                let mut out = "prepare mount path ".to_owned();
                out.append(guest.display().as_str());
                out.append(" must not contain '..'");
                out
            },
            ManifestError::NotPlain(role, file) => {
                let mut out = role.text().to_owned();
                out.append(" ");
                out.append(file.display().as_str());
                out.append(" must be a plain relative path inside the package");
                out
            },
            ManifestError::NotADirectory(source) => {
                let mut out = "prepare mount source ".to_owned();
                out.append(source.display().as_str());
                out.append(" is not a directory");
                out
            },
            ManifestError::NotAFile(role, file) => {
                let mut out = role.text().to_owned();
                out.append(" ");
                out.append(file.display().as_str());
                out.append(" is not a file");
                out
            },
            ManifestError::Unresolved(role, file, cause) => {
                let mut out = "failed to resolve ".to_owned();
                out.append(role.text());
                out.append(" ");
                out.append(file.display().as_str());
                out.append(": ");
                out.append(cause.as_str());
                out
            },
            ManifestError::Outside(role, file) => {
                let mut out = role.text().to_owned();
                out.append(" ");
                out.append(file.display().as_str());
                out.append(" resolves outside the package");
                out
            },
            ManifestError::Send(error) => {
                let mut out = "invalid ready probe send bytes: ".to_owned();
                out.append(error.text().as_str());
                out
            },
            ManifestError::Pattern(error) => {
                let mut out = "invalid ready probe pattern: ".to_owned();
                out.append(error.as_str());
                out
            },
        }
    }
}

/// The paths a prepare table names, in the order they are looked at.
pub open spec fn prepare_names(raw: RawPrepare) -> Seq<Seq<u8>> {
    let module = match raw.module {
        Some(module) => seq![module@],
        None => Seq::empty(),
    };
    let stdin = match raw.stdin_file {
        Some(file) => seq![file@],
        None => Seq::empty(),
    };
    Seq::new(raw.fs@.len(), |i: int| raw.fs@[i].1@) + module + stdin
}

/// The paths a manifest names, in the order they are looked at.
pub open spec fn manifest_names(raw: RawManifest) -> Seq<Seq<u8>> {
    let prepare = match raw.prepare {
        Some(prepare) => prepare_names(prepare),
        None => Seq::empty(),
    };
    let initializer = match raw.initializer {
        Some(initializer) => seq![initializer.module@],
        None => Seq::empty(),
    };
    prepare + seq![raw.guest.module@] + initializer
}

/// Those of the names that may stand in a package, taken in its directory.
pub open spec fn plain_names(names: Seq<Seq<u8>>, directory: Seq<u8>) -> Seq<Seq<u8>>
    decreases names.len(),
{
    if names.len() == 0 {
        Seq::empty()
    } else {
        let rest = plain_names(names.drop_last(), directory);
        if path::is_plain(names.last()) {
            rest.push(path::joined(directory, names.last()))
        } else {
            rest
        }
    }
}

/// Adds a name that may stand in a package.
fn push_plain(paths: &mut Vec<UnixPath>, name: &UnixPath, directory: &UnixPath, seen: Ghost<
    Seq<Seq<u8>>,
>)
    requires
        path::path_views(old(paths)@) == plain_names(seen@, directory@),
    ensures
        path::path_views(final(paths)@) == plain_names(seen@.push(name@), directory@),
{
    proof {
        assert(seen@.push(name@).drop_last() =~= seen@);
    }
    let ghost before = path::path_views(paths@);
    if name.is_plain() {
        paths.push(directory.join(name));
        proof {
            assert(path::path_views(paths@) =~= before.push(path::joined(directory@, name@)));
        }
    }
}

/// The paths of the filesystem that a manifest in `directory` is checked
/// against.
pub fn package_paths(raw: &RawManifest, directory: &UnixPath) -> (r: Vec<UnixPath>)
    ensures
        path::path_views(r@) == plain_names(manifest_names(*raw), directory@),
{
    let mut paths: Vec<UnixPath> = Vec::new();
    let ghost mut seen: Seq<Seq<u8>> = Seq::empty();
    proof {
        assert(path::path_views(paths@) =~= Seq::<Seq<u8>>::empty());
    }
    if let Some(prepare) = &raw.prepare {
        let ghost sources = Seq::new(prepare.fs@.len(), |i: int| prepare.fs@[i].1@);
        let mut i: usize = 0;
        while i < prepare.fs.len()
            invariant
                i <= prepare.fs@.len(),
                sources == Seq::new(prepare.fs@.len(), |i: int| prepare.fs@[i].1@),
                seen == sources.take(i as int),
                path::path_views(paths@) == plain_names(seen, directory@),
            decreases prepare.fs@.len() - i,
        {
            push_plain(&mut paths, &prepare.fs[i].1, directory, Ghost(seen));
            proof {
                assert(sources.take(i + 1) =~= sources.take(i as int).push(sources[i as int]));
                seen = sources.take(i + 1);
            }
            i = i + 1;
        }
        proof {
            assert(sources.take(i as int) =~= sources);
        }
        if let Some(module) = &prepare.module {
            push_plain(&mut paths, module, directory, Ghost(seen));
            proof {
                seen = seen.push(module@);
            }
        }
        if let Some(file) = &prepare.stdin_file {
            push_plain(&mut paths, file, directory, Ghost(seen));
            proof {
                seen = seen.push(file@);
            }
        }
        proof {
            assert(seen =~= prepare_names(*prepare));
        }
    }
    push_plain(&mut paths, &raw.guest.module, directory, Ghost(seen));
    proof {
        seen = seen.push(raw.guest.module@);
    }
    if let Some(initializer) = &raw.initializer {
        push_plain(&mut paths, &initializer.module, directory, Ghost(seen));
        proof {
            seen = seen.push(initializer.module@);
        }
    }
    proof {
        assert(seen =~= manifest_names(*raw));
    }
    paths
}

/// Whether the facts say that the path is a file inside the package.
pub open spec fn is_package_file(facts: Seq<PathFacts>, file: Seq<u8>, canonical: Seq<u8>) -> bool {
    match facts_of(facts, file) {
        Some(known) => known.is_file && known.canonical is Ok && path::is_within(
            (known.canonical->Ok_0)@,
            canonical,
        ),
        None => false,
    }
}

/// Whether the facts say that the path is a directory inside the package.
pub open spec fn is_package_directory(
    facts: Seq<PathFacts>,
    source: Seq<u8>,
    canonical: Seq<u8>,
) -> bool {
    match facts_of(facts, source) {
        Some(known) => known.is_dir && known.canonical is Ok && path::is_within(
            (known.canonical->Ok_0)@,
            canonical,
        ),
        None => false,
    }
}

/// Every module of a manifest that loads, and its prepare input, is a file
/// inside the package.
pub proof fn law_package_files_stay_in_the_package(
    raw: RawManifest,
    directory: Seq<u8>,
    canonical: Seq<u8>,
    facts: Seq<PathFacts>,
    manifest: Manifest,
)
    requires
        manifest_fault(raw, directory, canonical, facts) is None,
        manifest_resolved(raw, directory, manifest),
    ensures
        forall|i: int|
            0 <= i < manifest.module_paths().len() ==> is_package_file(
                facts,
                #[trigger] manifest.module_paths()[i],
                canonical,
            ),
        manifest.prepare is Some && (manifest.prepare->0).stdin_file is Some ==> is_package_file(
            facts,
            ((manifest.prepare->0).stdin_file->0)@,
            canonical,
        ),
{
    assert(is_package_file(facts, manifest.guest.module@, canonical));
    if let Some(prepare) = manifest.prepare {
        if let Some(module) = prepare.module {
            assert(is_package_file(facts, module@, canonical));
        }
    }
    if let Some(initializer) = manifest.initializer {
        assert(is_package_file(facts, initializer.module@, canonical));
    }
    assert forall|i: int| 0 <= i < manifest.module_paths().len() implies is_package_file(
        facts,
        #[trigger] manifest.module_paths()[i],
        canonical,
    ) by {
        let file = manifest.module_paths()[i];
        assert(file == manifest.guest.module@ || (manifest.prepare is Some && (
        manifest.prepare->0).module is Some && file == ((manifest.prepare->0).module->0)@) || (
        manifest.initializer is Some && file == (manifest.initializer->0).module@));
    }
}

/// Every mount of a manifest that loads stands at an absolute place without
/// `..` and is a directory inside the package.
pub proof fn law_mounts_stay_in_the_package(
    raw: RawManifest,
    directory: Seq<u8>,
    canonical: Seq<u8>,
    facts: Seq<PathFacts>,
    manifest: Manifest,
    i: int,
)
    requires
        manifest_fault(raw, directory, canonical, facts) is None,
        manifest_resolved(raw, directory, manifest),
        manifest.prepare is Some,
        0 <= i < (manifest.prepare->0).fs@.len(),
    ensures
        path::is_absolute((manifest.prepare->0).fs@[i].0@),
        !path::climbs((manifest.prepare->0).fs@[i].0@),
        is_package_directory(facts, (manifest.prepare->0).fs@[i].1@, canonical),
{
    let table = raw.prepare->0;
    lemma_mounts_sound(table.fs@, directory, canonical, facts, i);
    assert((manifest.prepare->0).fs@[i].0@ == table.fs@[i].0@);
}

proof fn lemma_mounts_sound(
    mounts: Seq<(UnixPath, UnixPath)>,
    directory: Seq<u8>,
    canonical: Seq<u8>,
    facts: Seq<PathFacts>,
    i: int,
)
    requires
        mounts_fault(mounts, directory, canonical, facts) is None,
        0 <= i < mounts.len(),
    ensures
        mount_fault(mounts[i].0@, mounts[i].1@, directory, canonical, facts) is None,
    decreases mounts.len(),
{
    if i > 0 {
        lemma_mounts_sound(mounts.drop_first(), directory, canonical, facts, i - 1);
        assert(mounts.drop_first()[i - 1] == mounts[i]);
    }
}

/// A manifest that loads is what was written: its names, arguments and port are
/// unchanged, its files stand in the package's directory, and it has the
/// parts that were written and no others.
pub proof fn law_a_manifest_is_what_was_written(
    raw: RawManifest,
    directory: Seq<u8>,
    manifest: Manifest,
)
    requires
        manifest_resolved(raw, directory, manifest),
    ensures
        manifest.service.name@ == raw.service.name@,
        manifest.service.version@ == raw.service.version@,
        manifest.service.extensions@ == raw.service.extensions@,
        manifest.directory@ == directory,
        manifest.guest.listen_port == raw.guest.listen_port,
        manifest.guest.args@ == raw.guest.args@,
        manifest.guest.module@ == path::joined(directory, raw.guest.module@),
        manifest.guest.ready is Some <==> raw.guest.ready is Some,
        manifest.guest.ready is Some ==> (manifest.guest.ready->0).matches@ == (
        raw.guest.ready->0).matches@,
        manifest.initializer is Some <==> raw.initializer is Some,
        manifest.initializer is Some ==> (manifest.initializer->0).args@ == (
        raw.initializer->0).args@ && (manifest.initializer->0).module@ == path::joined(
            directory,
            (raw.initializer->0).module@,
        ),
        manifest.prepare is Some <==> raw.prepare is Some,
        manifest.prepare is Some ==> {
            let (prepare, written) = (manifest.prepare->0, raw.prepare->0);
            &&& prepare.args@ == written.args@
            &&& prepare.module is Some <==> written.module is Some
            &&& prepare.module is Some ==> (prepare.module->0)@ == path::joined(
                directory,
                (written.module->0)@,
            )
            &&& prepare.stdin_file is Some <==> written.stdin_file is Some
            &&& prepare.stdin_file is Some ==> (prepare.stdin_file->0)@ == path::joined(
                directory,
                (written.stdin_file->0)@,
            )
            &&& prepare.fs@.len() == written.fs@.len()
            &&& forall|i: int|
                0 <= i < prepare.fs@.len() ==> (#[trigger] prepare.fs@[i]).0@ == written.fs@[i].0@
                    && prepare.fs@[i].1@ == path::joined(directory, written.fs@[i].1@)
        },
{
}

/// What is known of a path is what the first entry for it says, and nothing is
/// known of a path that has none.
pub proof fn law_facts_are_those_of_the_path(facts: Seq<PathFacts>, file: Seq<u8>)
    ensures
        facts_of(facts, file) matches Some(known) ==> known.path@ == file && exists|i: int|
            0 <= i < facts.len() && #[trigger] facts[i] == known && forall|j: int|
                0 <= j < i ==> (#[trigger] facts[j]).path@ != file,
        facts_of(facts, file) is None ==> forall|i: int|
            0 <= i < facts.len() ==> (#[trigger] facts[i]).path@ != file,
    decreases facts.len(),
{
    if facts.len() > 0 {
        let rest = facts.drop_first();
        law_facts_are_those_of_the_path(rest, file);
        if facts[0].path@ == file {
            assert(facts[0] == facts_of(facts, file)->0);
        } else if facts_of(facts, file) is Some {
            let known = facts_of(facts, file)->0;
            let i = choose|i: int|
                0 <= i < rest.len() && #[trigger] rest[i] == known && forall|j: int|
                    0 <= j < i ==> (#[trigger] rest[j]).path@ != file;
            assert(facts[i + 1] == known);
            assert forall|j: int| 0 <= j < i + 1 implies (#[trigger] facts[j]).path@ != file by {
                if j > 0 {
                    assert(rest[j - 1].path@ != file);
                }
            }
        } else {
            assert forall|i: int| 0 <= i < facts.len() implies (#[trigger] facts[i]).path@
                != file by {
                if i > 0 {
                    assert(rest[i - 1].path@ != file);
                }
            }
        }
    }
}

/// Whether a file of a package may be used: its path leads down from the
/// package's directory, a file is there, and it is one of the package.
pub open spec fn usable_file(
    file: Seq<u8>,
    directory: Seq<u8>,
    canonical: Seq<u8>,
    facts: Seq<PathFacts>,
) -> bool {
    &&& path::is_plain(file)
    &&& is_package_file(facts, path::joined(directory, file), canonical)
}

/// Whether a mount may be used: its place in the guest is absolute and has no
/// `..`, and its source is a directory of the package.
pub open spec fn usable_mount(
    place: Seq<u8>,
    source: Seq<u8>,
    directory: Seq<u8>,
    canonical: Seq<u8>,
    facts: Seq<PathFacts>,
) -> bool {
    &&& path::is_absolute(place)
    &&& !path::climbs(place)
    &&& path::is_plain(source)
    &&& is_package_directory(facts, path::joined(directory, source), canonical)
}

proof fn lemma_mounts_complete(
    mounts: Seq<(UnixPath, UnixPath)>,
    directory: Seq<u8>,
    canonical: Seq<u8>,
    facts: Seq<PathFacts>,
)
    requires
        forall|i: int|
            0 <= i < mounts.len() ==> usable_mount(
                (#[trigger] mounts[i]).0@,
                mounts[i].1@,
                directory,
                canonical,
                facts,
            ),
    ensures
        mounts_fault(mounts, directory, canonical, facts) is None,
    decreases mounts.len(),
{
    if mounts.len() > 0 {
        assert(usable_mount(mounts[0].0@, mounts[0].1@, directory, canonical, facts));
        let rest = mounts.drop_first();
        assert forall|i: int| 0 <= i < rest.len() implies usable_mount(
            (#[trigger] rest[i]).0@,
            rest[i].1@,
            directory,
            canonical,
            facts,
        ) by {
            assert(rest[i] == mounts[i + 1]);
        }
        lemma_mounts_complete(rest, directory, canonical, facts);
    }
}

/// A manifest loads exactly where its service has a name and a version, all of
/// its files and mounts may be used, and its probe's bytes decode and its
/// pattern compiles.
pub proof fn law_when_a_manifest_loads(
    raw: RawManifest,
    directory: Seq<u8>,
    canonical: Seq<u8>,
    facts: Seq<PathFacts>,
)
    ensures
        manifest_fault(raw, directory, canonical, facts) is None <==> {
            &&& raw.service.name@.len() > 0
            &&& raw.service.version@.len() > 0
            &&& raw.prepare is Some ==> {
                let prepare = raw.prepare->0;
                &&& forall|i: int|
                    0 <= i < prepare.fs@.len() ==> usable_mount(
                        (#[trigger] prepare.fs@[i]).0@,
                        prepare.fs@[i].1@,
                        directory,
                        canonical,
                        facts,
                    )
                &&& prepare.module is Some ==> usable_file(
                    (prepare.module->0)@,
                    directory,
                    canonical,
                    facts,
                )
                &&& prepare.stdin_file is Some ==> usable_file(
                    (prepare.stdin_file->0)@,
                    directory,
                    canonical,
                    facts,
                )
            }
            &&& usable_file(raw.guest.module@, directory, canonical, facts)
            &&& raw.guest.ready is Some ==> decoded((raw.guest.ready->0).send@) is Ok
                && pattern::pattern_error((raw.guest.ready->0).matches@) is None
            &&& raw.initializer is Some ==> usable_file(
                (raw.initializer->0).module@,
                directory,
                canonical,
                facts,
            )
        },
{
    if raw.prepare is Some {
        let mounts = (raw.prepare->0).fs@;
        if mounts_fault(mounts, directory, canonical, facts) is None {
            assert forall|i: int| 0 <= i < mounts.len() implies usable_mount(
                (#[trigger] mounts[i]).0@,
                mounts[i].1@,
                directory,
                canonical,
                facts,
            ) by {
                lemma_mounts_sound(mounts, directory, canonical, facts, i);
            }
        }
        if forall|i: int|
            0 <= i < mounts.len() ==> usable_mount(
                (#[trigger] mounts[i]).0@,
                mounts[i].1@,
                directory,
                canonical,
                facts,
            ) {
            lemma_mounts_complete(mounts, directory, canonical, facts);
        }
    }
}

/// A manifest that does not load is refused for the first thing that is wrong
/// with it, and the refusal says what that is.
pub proof fn law_a_manifest_is_refused_for_what_is_wrong(
    raw: RawManifest,
    directory: Seq<u8>,
    canonical: Seq<u8>,
    facts: Seq<PathFacts>,
)
    requires
        manifest_fault(raw, directory, canonical, facts) is Some,
    ensures
        ({
            let fault = manifest_fault(raw, directory, canonical, facts)->0;
            let known = |role: Role, file: Seq<u8>|
                {
                    ||| role == Role::GuestModule && file == raw.guest.module@
                    ||| role == Role::InitializerModule && raw.initializer is Some && file == (
                    raw.initializer->0).module@
                    ||| role == Role::PrepareModule && raw.prepare is Some && (
                    raw.prepare->0).module is Some && file == ((raw.prepare->0).module->0)@
                    ||| role == Role::StdinFile && raw.prepare is Some && (
                    raw.prepare->0).stdin_file is Some && file == ((
                    raw.prepare->0).stdin_file->0)@
                    ||| role == Role::MountSource && raw.prepare is Some && exists|i: int|
                        0 <= i < (raw.prepare->0).fs@.len() && file == (#[trigger] (
                        raw.prepare->0).fs@[i]).1@
                };
            let placed = |place: Seq<u8>|
                raw.prepare is Some && exists|i: int|
                    0 <= i < (raw.prepare->0).fs@.len() && place == (#[trigger] (
                    raw.prepare->0).fs@[i]).0@;
            &&& fault == Fault::EmptyName <==> raw.service.name@.len() == 0
            &&& fault == Fault::EmptyVersion <==> raw.service.name@.len() > 0
                && raw.service.version@.len() == 0
            &&& fault matches Fault::MountNotAbsolute(place) ==> !path::is_absolute(place)
                && placed(place)
            &&& fault matches Fault::MountClimbs(place) ==> path::climbs(place) && placed(place)
            &&& fault matches Fault::NotPlain(role, file) ==> !path::is_plain(file) && known(
                role,
                file,
            )
            &&& fault matches Fault::NotADirectory(source) ==> !is_package_directory(
                facts,
                source,
                canonical,
            )
            &&& fault matches Fault::NotAFile(role, file) ==> !(facts_of(facts, file) matches Some(
                f,
            ) && f.is_file)
            &&& fault matches Fault::Unresolved(_, file, cause) ==> facts_of(facts, file) matches Some(
                f,
            ) && (f.canonical matches Err(why) && why@ == cause)
            &&& fault matches Fault::Outside(_, file) ==> facts_of(facts, file) matches Some(f) && (
            f.canonical matches Ok(target) && !path::is_within(target@, canonical))
            &&& fault matches Fault::Send(error) ==> raw.guest.ready is Some && decoded(
                (raw.guest.ready->0).send@,
            ) == Err::<Seq<u8>, ByteStringError>(error)
            &&& fault matches Fault::Pattern(error) ==> raw.guest.ready is Some
                && pattern::pattern_error((raw.guest.ready->0).matches@) == Some(error)
        }),
{
    if raw.prepare is Some {
        lemma_mounts_blamed((raw.prepare->0).fs@, directory, canonical, facts);
    }
}

proof fn lemma_mounts_blamed(
    mounts: Seq<(UnixPath, UnixPath)>,
    directory: Seq<u8>,
    canonical: Seq<u8>,
    facts: Seq<PathFacts>,
)
    ensures
        mounts_fault(mounts, directory, canonical, facts) is Some ==> exists|i: int|
            0 <= i < mounts.len() && mounts_fault(mounts, directory, canonical, facts)
                == mount_fault(
                (#[trigger] mounts[i]).0@,
                mounts[i].1@,
                directory,
                canonical,
                facts,
            ),
    decreases mounts.len(),
{
    if mounts.len() > 0 {
        let rest = mounts.drop_first();
        lemma_mounts_blamed(rest, directory, canonical, facts);
        let fault = mounts_fault(mounts, directory, canonical, facts);
        let first = mount_fault(mounts[0].0@, mounts[0].1@, directory, canonical, facts);
        if fault is Some {
            if first is Some {
                assert(fault == mount_fault(
                    mounts[0].0@,
                    mounts[0].1@,
                    directory,
                    canonical,
                    facts,
                ));
            } else {
                let i = choose|i: int|
                    0 <= i < rest.len() && fault == mount_fault(
                        (#[trigger] rest[i]).0@,
                        rest[i].1@,
                        directory,
                        canonical,
                        facts,
                    );
                assert(mounts[i + 1] == rest[i]);
            }
        }
    }
}

/// A byte string is read from the front: a printable character stands for
/// itself, a backslash for the one behind it, `\\x` and two hexadecimal digits
/// for the byte they spell. Nothing else is read.
pub proof fn law_a_byte_string_is_read_from_the_front(
    c: char,
    high: char,
    low: char,
    rest: Seq<char>,
)
    ensures
        decoded(Seq::empty()) == Ok::<Seq<u8>, ByteStringError>(Seq::empty()),
        ' ' <= c <= '~' && c != '\\' ==> (match decoded(rest) {
            Ok(bytes) => decoded(seq![c] + rest) == Ok::<Seq<u8>, ByteStringError>(
                seq![c as u8] + bytes,
            ),
            Err(error) => decoded(seq![c] + rest) == Err::<Seq<u8>, ByteStringError>(error),
        }),
        !(' ' <= c <= '~') ==> decoded(seq![c] + rest) == Err::<Seq<u8>, ByteStringError>(
            ByteStringError::Character(c),
        ),
        match decoded(rest) {
            Ok(bytes) => decoded(seq!['\\', '\\'] + rest) == Ok::<Seq<u8>, ByteStringError>(
                seq!['\\' as u8] + bytes,
            ),
            Err(error) => decoded(seq!['\\', '\\'] + rest) == Err::<Seq<u8>, ByteStringError>(
                error,
            ),
        },
        decoded(seq!['\\']) == Err::<Seq<u8>, ByteStringError>(ByteStringError::EndOfString),
        c != 'x' && c != '\\' ==> decoded(seq!['\\', c] + rest) == Err::<
            Seq<u8>,
            ByteStringError,
        >(ByteStringError::Escape(c)),
        ({
            let spelled = decoded(seq!['\\', 'x', high, low] + rest);
            let (h, l) = (text::digit_value(high, 16), text::digit_value(low, 16));
            if h is Some && l is Some {
                match decoded(rest) {
                    Ok(bytes) => spelled matches Ok(all) && all.len() == bytes.len() + 1 && all[0]
                        as int == 16 * h->0 + l->0 && all.skip(1) == bytes,
                    Err(error) => spelled == Err::<Seq<u8>, ByteStringError>(error),
                }
            } else {
                spelled == Err::<Seq<u8>, ByteStringError>(ByteStringError::HexDigits)
            }
        }),
        rest.len() < 2 ==> decoded(seq!['\\', 'x'] + rest) == Err::<Seq<u8>, ByteStringError>(
            ByteStringError::HexDigits,
        ),
{
    let one = seq![c] + rest;
    assert(one.skip(1) =~= rest);
    let two = seq!['\\', '\\'] + rest;
    assert(two.skip(2) =~= rest);
    let four = seq!['\\', 'x', high, low] + rest;
    assert(four.skip(4) =~= rest);
    assert(four[2] == high && four[3] == low);
    if decoded(rest) is Ok {
        let bytes = decoded(rest)->Ok_0;
        if text::digit_value(high, 16) is Some && text::digit_value(low, 16) is Some {
            let byte = (text::digit_value(high, 16)->0 * 16 + text::digit_value(low, 16)->0) as u8;
            assert((seq![byte] + bytes).skip(1) =~= bytes);
        }
    }
}

/// The modules of a manifest are those that its processes run: what prepares
/// comes first, then the guest, then what initializes.
pub proof fn law_the_modules_are_those_that_run(manifest: Manifest)
    ensures
        ({
            let paths = manifest.module_paths();
            let prepares = manifest.prepare is Some && (manifest.prepare->0).module is Some;
            let initializes = manifest.initializer is Some;
            &&& paths.contains(manifest.guest.module@)
            &&& prepares ==> paths.len() >= 2 && paths[0] == ((manifest.prepare->0).module->0)@
                && paths[1] == manifest.guest.module@
            &&& !prepares ==> paths[0] == manifest.guest.module@
            &&& initializes ==> paths.last() == (manifest.initializer->0).module@
            &&& !initializes ==> paths.last() == manifest.guest.module@
            &&& (paths.len() == 3 <==> prepares && initializes)
            &&& (paths.len() == 1 <==> !prepares && !initializes)
        }),
{
    let paths = manifest.module_paths();
    let at: int = if manifest.prepare is Some && (manifest.prepare->0).module is Some {
        1
    } else {
        0
    };
    assert(paths[at] == manifest.guest.module@);
}

/// Whether a manifest names a file or a mount's source.
pub open spec fn is_named(raw: RawManifest, file: Seq<u8>) -> bool {
    ||| file == raw.guest.module@
    ||| raw.initializer is Some && file == (raw.initializer->0).module@
    ||| raw.prepare is Some && (raw.prepare->0).module is Some && file == ((
    raw.prepare->0).module->0)@
    ||| raw.prepare is Some && (raw.prepare->0).stdin_file is Some && file == ((
    raw.prepare->0).stdin_file->0)@
    ||| raw.prepare is Some && exists|i: int|
        0 <= i < (raw.prepare->0).fs@.len() && file == (#[trigger] (raw.prepare->0).fs@[i]).1@
}

/// What has to be looked up for a manifest is each of its files and mount
/// sources that leads down from the package's directory, and nothing else.
pub proof fn law_every_plain_file_is_looked_up(raw: RawManifest, directory: Seq<u8>, file: Seq<u8>)
    ensures
        is_named(raw, file) && path::is_plain(file) ==> plain_names(
            manifest_names(raw),
            directory,
        ).contains(path::joined(directory, file)),
        plain_names(manifest_names(raw), directory).contains(file) ==> exists|name: Seq<u8>|
            path::is_plain(name) && is_named(raw, name) && #[trigger] path::joined(
                directory,
                name,
            ) == file,
{
    let names = manifest_names(raw);
    let wanted = plain_names(names, directory);
    if is_named(raw, file) && path::is_plain(file) {
        lemma_manifest_names(raw, file);
        let i = choose|i: int| 0 <= i < names.len() && names[i] == file;
        lemma_plain_name_kept(names, directory, i);
    }
    if wanted.contains(file) {
        let name = lemma_plain_name_from(names, directory, file);
        lemma_manifest_names(raw, name);
        assert(path::joined(directory, name) == file);
    }
}

proof fn lemma_manifest_names(raw: RawManifest, file: Seq<u8>)
    ensures
        manifest_names(raw).contains(file) <==> is_named(raw, file),
{
    let names = manifest_names(raw);
    if raw.prepare is Some {
        let prepare = raw.prepare->0;
        let own = prepare_names(prepare);
        let n = prepare.fs@.len() as int;
        assert forall|i: int| 0 <= i < n implies names[i] == (#[trigger] prepare.fs@[i]).1@ by {
            assert(own[i] == prepare.fs@[i].1@);
        }
        if prepare.module is Some {
            assert(names[n] == (prepare.module->0)@);
        }
        if prepare.stdin_file is Some {
            assert(names[own.len() - 1] == (prepare.stdin_file->0)@);
        }
        assert(names[own.len() as int] == raw.guest.module@);
        if names.contains(file) {
            let i = choose|i: int| 0 <= i < names.len() && names[i] == file;
            if i < n {
                assert(prepare.fs@[i].1@ == file);
            } else if i < own.len() {
                assert(own[i] == file);
            } else {
                assert(i == own.len() || names[i] == (raw.initializer->0).module@);
            }
        }
    } else {
        assert(names[0] == raw.guest.module@);
        if names.contains(file) {
            let i = choose|i: int| 0 <= i < names.len() && names[i] == file;
            assert(i == 0 || i == 1);
        }
    }
    if raw.initializer is Some {
        assert(names[names.len() - 1] == (raw.initializer->0).module@);
    }
}

proof fn lemma_plain_name_kept(names: Seq<Seq<u8>>, directory: Seq<u8>, i: int)
    requires
        0 <= i < names.len(),
        path::is_plain(names[i]),
    ensures
        plain_names(names, directory).contains(path::joined(directory, names[i])),
    decreases names.len(),
{
    let rest = names.drop_last();
    let all = plain_names(names, directory);
    let less = plain_names(rest, directory);
    let up = path::joined(directory, names[i]);
    if i < rest.len() {
        lemma_plain_name_kept(rest, directory, i);
        let k = choose|k: int| 0 <= k < less.len() && less[k] == up;
        assert(all[k] == up);
    } else {
        assert(all[less.len() as int] == up);
    }
}

proof fn lemma_plain_name_from(names: Seq<Seq<u8>>, directory: Seq<u8>, file: Seq<u8>) -> (name: Seq<
    u8,
>)
    requires
        plain_names(names, directory).contains(file),
    ensures
        path::is_plain(name),
        names.contains(name),
        path::joined(directory, name) == file,
    decreases names.len(),
{
    let rest = names.drop_last();
    let all = plain_names(names, directory);
    let less = plain_names(rest, directory);
    let k = choose|k: int| 0 <= k < all.len() && all[k] == file;
    if k < less.len() {
        assert(less[k] == file);
        let name = lemma_plain_name_from(rest, directory, file);
        let i = choose|i: int| 0 <= i < rest.len() && rest[i] == name;
        assert(names[i] == name);
        name
    } else {
        assert(names[names.len() - 1] == names.last());
        names.last()
    }
}

/// A mount is found at its place once it is written down, in place of one that
/// was there. All others stay as they are.
pub proof fn law_a_mount_stands_at_its_place(
    mounts: Seq<(UnixPath, UnixPath)>,
    place: UnixPath,
    source: UnixPath,
    at: int,
)
    requires
        places_in_order(mounts),
        stands_at(mounts, place, at),
    ensures
        ({
            let after = mounted(mounts, place, source, at);
            &&& after[at].1 == source
            &&& !path::path_less(after[at].0@, place@) && !path::path_less(place@, after[at].0@)
            &&& forall|i: int| 0 <= i < at ==> #[trigger] after[i] == mounts[i]
            &&& after.len() == mounts.len() ==> forall|i: int|
                at < i < mounts.len() ==> #[trigger] after[i] == mounts[i]
            &&& after.len() != mounts.len() ==> after.len() == mounts.len() + 1 && forall|i: int|
                at <= i < mounts.len() ==> #[trigger] mounts[i] == after[i + 1]
            &&& after.len() == mounts.len() <==> exists|i: int|
                0 <= i < mounts.len() && !path::path_less((#[trigger] mounts[i]).0@, place@)
                    && !path::path_less(place@, mounts[i].0@)
        }),
{
    path::lemma_parts_less_irreflexive(path::components(place@));
    let after = mounted(mounts, place, source, at);
    if after.len() != mounts.len() {
        assert forall|i: int| 0 <= i < mounts.len() && !path::path_less(
            (#[trigger] mounts[i]).0@,
            place@,
        ) implies path::path_less(place@, mounts[i].0@) by {
            if i > at {
                path::lemma_parts_less_transitive(
                    path::components(place@),
                    path::components(mounts[at].0@),
                    path::components(mounts[i].0@),
                );
            }
        }
    } else {
        assert(!path::path_less(mounts[at].0@, place@));
    }
}

/// What is said of a refused manifest names the file or place it is about, and
/// the part that the file has in it.
pub proof fn law_a_refused_manifest_names_its_file(fault: Fault)
    ensures
        ({
            let said = fault_text(fault);
            &&& fault matches Fault::MountNotAbsolute(place) ==> said == "prepare mount path "@
                + path::lossy(place) + " must be absolute"@
            &&& fault matches Fault::MountClimbs(place) ==> said == "prepare mount path "@
                + path::lossy(place) + " must not contain '..'"@
            &&& fault matches Fault::NotPlain(role, file) ==> (role_text(role) + " "@ + path::lossy(
                file,
            )).is_prefix_of(said)
            &&& fault matches Fault::NotAFile(role, file) ==> (role_text(role) + " "@ + path::lossy(
                file,
            )).is_prefix_of(said)
            &&& fault matches Fault::Outside(role, file) ==> (role_text(role) + " "@ + path::lossy(
                file,
            )).is_prefix_of(said)
            &&& fault matches Fault::NotADirectory(source) ==> ("prepare mount source "@
                + path::lossy(source)).is_prefix_of(said)
            &&& fault matches Fault::Unresolved(role, file, cause) ==> ("failed to resolve "@
                + role_text(role) + " "@ + path::lossy(file)).is_prefix_of(said) && said.skip(
                said.len() - cause.len(),
            ) == cause
            &&& fault matches Fault::Pattern(error) ==> said.skip(said.len() - error.len()) == error
            &&& fault matches Fault::Send(error) ==> said.skip(
                said.len() - byte_string_error_text(error).len(),
            ) == byte_string_error_text(error)
        }),
{
    let said = fault_text(fault);
    match fault {
        Fault::NotPlain(role, file) | Fault::NotAFile(role, file) | Fault::Outside(role, file) => {
            let start = role_text(role) + " "@ + path::lossy(file);
            assert(start =~= said.subrange(0, start.len() as int));
        },
        Fault::NotADirectory(source) => {
            let start = "prepare mount source "@ + path::lossy(source);
            assert(start =~= said.subrange(0, start.len() as int));
        },
        Fault::Unresolved(role, file, cause) => {
            let start = "failed to resolve "@ + role_text(role) + " "@ + path::lossy(file);
            assert(start =~= said.subrange(0, start.len() as int));
            assert(said.skip(said.len() - cause.len()) =~= cause);
        },
        Fault::Pattern(error) => {
            assert(said.skip(said.len() - error.len()) =~= error);
        },
        Fault::Send(error) => {
            let cause = byte_string_error_text(error);
            assert(said.skip(said.len() - cause.len()) =~= cause);
        },
        _ => {},
    }
}

/// What is said of a refused manifest ends with what is wrong with it.
pub proof fn law_a_refused_manifest_says_what_is_wrong(fault: Fault, role: Role, file: Seq<u8>)
    ensures
        fault_text(Fault::EmptyName) == "service name must not be empty"@,
        fault_text(Fault::EmptyVersion) == "service version must not be empty"@,
        fault_text(Fault::NotPlain(role, file)) == role_text(role) + " "@ + path::lossy(file)
            + " must be a plain relative path inside the package"@,
        fault_text(Fault::NotADirectory(file)) == "prepare mount source "@ + path::lossy(file)
            + " is not a directory"@,
        fault_text(Fault::NotAFile(role, file)) == role_text(role) + " "@ + path::lossy(file)
            + " is not a file"@,
        fault_text(Fault::Outside(role, file)) == role_text(role) + " "@ + path::lossy(file)
            + " resolves outside the package"@,
        fault matches Fault::Unresolved(role, file, cause) ==> fault_text(fault)
            == "failed to resolve "@ + role_text(role) + " "@ + path::lossy(file) + ": "@ + cause,
        fault matches Fault::Send(error) ==> fault_text(fault)
            == "invalid ready probe send bytes: "@ + byte_string_error_text(error),
        fault matches Fault::Pattern(error) ==> fault_text(fault)
            == "invalid ready probe pattern: "@ + error,
{
}

/// What is said of a byte string that does not decode names the character it
/// fails at, where it fails at one.
pub proof fn law_a_bad_byte_string_names_its_character(c: char)
    ensures
        byte_string_error_text(ByteStringError::Escape(c)).last() == c,
        byte_string_error_text(ByteStringError::Escape(c)).drop_last() == "unsupported escape \\"@,
        byte_string_error_text(ByteStringError::Character(c)) == "unsupported character "@
            + text::char_debug(c) + "; escape bytes as \\xNN"@,
        byte_string_error_text(ByteStringError::HexDigits) == "\\x needs two hex digits"@,
        byte_string_error_text(ByteStringError::EndOfString)
            == "unsupported escape at end of string"@,
        role_text(Role::MountSource) == "prepare mount source"@,
        role_text(Role::PrepareModule) == "prepare module"@,
        role_text(Role::StdinFile) == "prepare stdin file"@,
        role_text(Role::GuestModule) == "guest module"@,
        role_text(Role::InitializerModule) == "initializer module"@,
{
    let said = byte_string_error_text(ByteStringError::Escape(c));
    assert(said.drop_last() =~= "unsupported escape \\"@);
}

/// What is wrong with a manifest is seen with the file it is about.
pub proof fn law_a_fault_is_seen_as_it_is(error: ManifestError)
    ensures
        error is EmptyName <==> error@ is EmptyName,
        error is EmptyVersion <==> error@ is EmptyVersion,
        error matches ManifestError::MountNotAbsolute(file) ==> error@ == Fault::MountNotAbsolute(
            file@,
        ),
        error matches ManifestError::MountClimbs(file) ==> error@ == Fault::MountClimbs(file@),
        error matches ManifestError::NotPlain(role, file) ==> error@ == Fault::NotPlain(role, file@),
        error matches ManifestError::NotADirectory(file) ==> error@ == Fault::NotADirectory(file@),
        error matches ManifestError::NotAFile(role, file) ==> error@ == Fault::NotAFile(role, file@),
        error matches ManifestError::Unresolved(role, file, cause) ==> error@ == Fault::Unresolved(
            role,
            file@,
            cause@,
        ),
        error matches ManifestError::Outside(role, file) ==> error@ == Fault::Outside(role, file@),
        error matches ManifestError::Send(cause) ==> error@ == Fault::Send(cause),
        error matches ManifestError::Pattern(cause) ==> error@ == Fault::Pattern(cause@),
{
}

} // verus!
