//! The host's process title: what `ps` and `htop` show as its command line.
//! The manager keeps the command line it was started with; every host in the
//! tree below it takes a title instead. The title is written over the memory
//! of the arguments in place, and the manager spawns every host with a
//! padding argument that reserves room for the longest title.

use crate::text;
use vstd::prelude::*;

verus! {

/// The flag the padding argument is passed under.
pub const BUFFER_FLAG: &'static str = "--internal-name-buffer";

/// The length of the padding argument, flag included: room for the longest
/// title with margin, whatever the paths in the real arguments are.
pub const BUFFER_LEN: usize = 256;

/// The padding argument, flag and value: a label so that a host whose title
/// was never set still explains itself, padded with underscores.
pub const BUFFER_ARG: &'static str = "--internal-name-buffer=_SERVICECACHE_NAME_BUFFER________________________________________________________________________________________________________________________________________________________________________________________________________________";

/// What a title says the host is doing.
#[derive(Debug, PartialEq, Eq)]
pub enum State {
    /// Bringing the guest up; not yet serving.
    Starting,
    /// The guest is serving on this endpoint.
    Serving(String),
    /// Frozen: a template, serving nothing.
    Frozen,
}

/// What a host is doing.
pub enum Doing {
    Starting,
    Serving(Seq<char>),
    Frozen,
}

impl View for State {
    type V = Doing;

    open spec fn view(&self) -> Doing {
        match self {
            State::Starting => Doing::Starting,
            State::Serving(endpoint) => Doing::Serving(endpoint@),
            State::Frozen => Doing::Frozen,
        }
    }
}

/// The title: role, `name@version`, the recipe when there is one, and what
/// the host is doing. The recipe shows as the first eight hexadecimal digits
/// of its digest.
pub open spec fn title(
    name: Seq<char>,
    version: Seq<char>,
    recipe: Option<Seq<u8>>,
    doing: Doing,
) -> Seq<char> {
    let role = match doing {
        Doing::Frozen => "servicecache template "@,
        _ => "servicecache instance "@,
    };
    let shown = match recipe {
        Some(digest) => " recipe "@ + text::hex(digest.take(4)),
        None => ""@,
    };
    let state = match doing {
        Doing::Starting => " starting"@,
        Doing::Serving(endpoint) => " listening on "@ + endpoint,
        Doing::Frozen => ""@,
    };
    role + name + "@"@ + version + shown + state
}

/// The view of a recipe digest.
pub open spec fn digest_view(recipe: Option<&[u8; 32]>) -> Option<Seq<u8>> {
    match recipe {
        Some(digest) => Some(digest@),
        None => None,
    }
}

/// The title of a host holding `name@version`, initialized with the recipe
/// whose SHA-256 is `recipe` if any, in `state`.
pub fn render(name: &str, version: &str, recipe: Option<&[u8; 32]>, state: &State) -> (r: String)
    ensures
        r@ == title(name@, version@, digest_view(recipe), state@),
{
    let mut out = match state {
        State::Frozen => "servicecache template ".to_owned(),
        _ => "servicecache instance ".to_owned(),
    };
    out.append(name);
    out.append("@");
    out.append(version);
    let mut shown = "".to_owned();
    if let Some(digest) = recipe {
        shown = " recipe ".to_owned();
        let start = [digest[0], digest[1], digest[2], digest[3]];
        proof {
            assert(start@ =~= digest@.take(4));
        }
        shown.append(text::hex_text(&start).as_str());
    }
    out.append(shown.as_str());
    let mut doing = "".to_owned();
    match state {
        State::Starting => {
            doing = " starting".to_owned();
        },
        State::Serving(endpoint) => {
            doing = " listening on ".to_owned();
            doing.append(endpoint.as_str());
        },
        State::Frozen => {},
    }
    out.append(doing.as_str());
    out
}

/// What the argument memory holds once a title is written over it: the title
/// as far as there is room, then zeros, at least one.
pub open spec fn overwritten(title: Seq<u8>, len: int) -> Seq<u8> {
    Seq::new(
        len as nat,
        |i: int|
            if i < title.len() && i < len - 1 {
                title[i]
            } else {
                0u8
            },
    )
}

/// What to write over `len` bytes of argument memory. The last byte stays
/// zero so that the memory reads as a plain argument list rather than running
/// on into the environment.
pub fn overwrite(title: &str, len: usize) -> (r: Vec<u8>)
    ensures
        r@ == overwritten(vstd::utf8::encode_utf8(title@), len as int),
        len > 0 ==> r@.last() == 0,
{
    let bytes = title.as_bytes();
    let mut out: Vec<u8> = Vec::new();
    let mut i: usize = 0;
    while i < len
        invariant
            i <= len,
            bytes@ == vstd::utf8::encode_utf8(title@),
            out@ == overwritten(bytes@, len as int).take(i as int),
        decreases len - i,
    {
        if i < bytes.len() && i < len - 1 {
            out.push(bytes[i]);
        } else {
            out.push(0);
        }
        proof {
            let all = overwritten(bytes@, len as int);
            assert(all.take(i + 1) =~= all.take(i as int).push(all[i as int]));
        }
        i = i + 1;
    }
    proof {
        let all = overwritten(bytes@, len as int);
        assert(all.take(len as int) =~= all);
    }
    out
}

/// Whether `c` is ASCII white space.
pub open spec fn is_ascii_space(c: char) -> bool {
    let n = c as int;
    n == 9 || n == 10 || n == 12 || n == 13 || n == 32
}

fn ascii_space(c: char) -> (r: bool)
    ensures
        r == is_ascii_space(c),
{
    let n: u32 = c as u32;
    n == 9 || n == 10 || n == 12 || n == 13 || n == 32
}

/// How many characters of `s` come before the first that is white space, or
/// before the first that is not.
pub open spec fn run_length(s: Seq<char>, space: bool) -> nat
    decreases s.len(),
{
    if s.len() == 0 || is_ascii_space(s[0]) != space {
        0
    } else {
        1 + run_length(s.drop_first(), space)
    }
}

proof fn lemma_run_length(s: Seq<char>, space: bool)
    ensures
        run_length(s, space) <= s.len(),
        s.len() > 0 && is_ascii_space(s[0]) == space ==> run_length(s, space) > 0,
    decreases s.len(),
{
    if s.len() > 0 && is_ascii_space(s[0]) == space {
        lemma_run_length(s.drop_first(), space);
    }
}

/// The words of `s`, separated by ASCII white space.
pub open spec fn fields(s: Seq<char>) -> Seq<Seq<char>>
    decreases s.len(),
    when s.len() >= 0
    via fields_decreases
{
    let rest = s.skip(run_length(s, true) as int);
    if rest.len() == 0 {
        Seq::empty()
    } else {
        let n = run_length(rest, false) as int;
        seq![rest.take(n)] + fields(rest.skip(n))
    }
}

#[via_fn]
proof fn fields_decreases(s: Seq<char>) {
    let spaces = run_length(s, true);
    lemma_run_length(s, true);
    let rest = s.skip(spaces as int);
    lemma_run_length(rest, false);
    lemma_run_stops(s, true);
}

proof fn lemma_run_stops(s: Seq<char>, space: bool)
    ensures
        run_length(s, space) < s.len() ==> is_ascii_space(s[run_length(s, space) as int]) != space,
    decreases s.len(),
{
    if s.len() > 0 && is_ascii_space(s[0]) == space {
        lemma_run_stops(s.drop_first(), space);
    }
}

/// Counts the white space, or the other characters, from index `from` on.
fn count_run(s: &[char], from: usize, space: bool) -> (r: usize)
    requires
        from <= s@.len(),
    ensures
        r == run_length(s@.skip(from as int), space),
        from + r <= s@.len(),
{
    let mut i: usize = from;
    while i < s.len() && ascii_space(s[i]) == space
        invariant
            from <= i <= s@.len(),
            run_length(s@.skip(from as int), space) == (i - from) + run_length(
                s@.skip(i as int),
                space,
            ),
        decreases s@.len() - i,
    {
        proof {
            assert(s@.skip(i as int).drop_first() =~= s@.skip(i + 1));
        }
        i = i + 1;
    }
    i - from
}

/// The words of `s`.
fn fields_of(s: &[char]) -> (r: Vec<Vec<char>>)
    ensures
        text::views(r@) == fields(s@),
{
    let mut r: Vec<Vec<char>> = Vec::new();
    let mut from: usize = 0;
    proof {
        assert(s@.skip(0) =~= s@);
        assert(text::views(r@) + fields(s@) =~= fields(s@));
    }
    let mut more: bool = true;
    while more
        invariant
            from <= s@.len(),
            more ==> text::views(r@) + fields(s@.skip(from as int)) == fields(s@),
            !more ==> text::views(r@) == fields(s@),
        decreases s@.len() - from + if more {
            1int
        } else {
            0
        },
    {
        let ghost left = s@.skip(from as int);
        let ghost before = text::views(r@);
        let len: usize = s.len();
        let spaces: usize = count_run(s, from, true);
        let start: usize = from + spaces;
        let ghost rest = left.skip(spaces as int);
        proof {
            assert(rest =~= s@.skip(start as int));
        }
        if start >= len {
            proof {
                assert(before + fields(left) =~= before);
            }
            more = false;
        } else {
            let n: usize = count_run(s, start, false);
            let word = text::copied(&s[start..start + n]);
            proof {
                assert(word@ =~= rest.take(n as int));
                assert(rest.skip(n as int) =~= s@.skip(start + n));
                assert(before.push(word@) + fields(rest.skip(n as int)) =~= before + (seq![word@]
                    + fields(rest.skip(n as int))));
                lemma_run_stops(left, true);
                lemma_run_length(rest, false);
            }
            r.push(word);
            proof {
                assert(text::views(r@) =~= before.push(r@.last()@));
            }
            from = start + n;
        }
    }
    r
}

/// Why the argument memory cannot be told.
#[derive(Clone, Copy, Debug, PartialEq, Eq, Structural)]
pub enum RegionError {
    /// The command name does not end.
    Unparseable,
    NoStart,
    NoEnd,
    /// An address is no number.
    BadNumber,
    /// The memory is empty, or there is none.
    NoRegion { start: usize, end: usize },
}

/// What follows the last `)` in `s`.
pub open spec fn after_command(s: Seq<char>) -> Option<Seq<char>>
    decreases s.len(),
{
    if s.len() == 0 {
        None
    } else {
        match after_command(s.drop_first()) {
            Some(rest) => Some(rest),
            None => if s[0] == ')' {
                Some(s.drop_first())
            } else {
                None
            },
        }
    }
}

proof fn lemma_after_command(s: Seq<char>, k: int)
    requires
        0 <= k <= s.len(),
        forall|i: int| k <= i < s.len() ==> s[i] != ')',
    ensures
        k > 0 && s[k - 1] == ')' ==> after_command(s) == Some(s.skip(k)),
        k == 0 ==> after_command(s) is None,
    decreases s.len(),
{
    if s.len() > 0 {
        let rest = s.drop_first();
        if k == 0 {
            lemma_after_command(rest, 0);
        } else {
            lemma_after_command(rest, k - 1);
            assert(rest.skip(k - 1) =~= s.skip(k));
        }
    }
}

/// The argument memory that a process's statistics report: its address and
/// length. The command name is in parentheses and may contain anything, so
/// the fields are counted from after the last one; the start of the arguments
/// is the forty-sixth from there and their end the next.
pub open spec fn region_of(stat: Seq<char>) -> Result<(int, int), RegionError> {
    match after_command(stat) {
        None => Err(RegionError::Unparseable),
        Some(rest) => {
            let all = fields(rest);
            if all.len() <= 45 {
                Err(RegionError::NoStart)
            } else {
                match text::number(all[45], 10, usize::MAX as int) {
                    None => Err(RegionError::BadNumber),
                    Some(start) => if all.len() <= 46 {
                        Err(RegionError::NoEnd)
                    } else {
                        match text::number(all[46], 10, usize::MAX as int) {
                            None => Err(RegionError::BadNumber),
                            Some(end) => if start == 0 || end <= start {
                                Err(
                                    RegionError::NoRegion {
                                        start: start as usize,
                                        end: end as usize,
                                    },
                                )
                            } else {
                                Ok((start, end - start))
                            },
                        }
                    },
                }
            }
        },
    }
}

/// The argument memory that a process's statistics report: its address and
/// length.
pub fn region(stat: &str) -> (r: Result<(usize, usize), RegionError>)
    ensures
        match region_of(stat@) {
            Ok((start, len)) => r is Ok && (r->Ok_0).0 == start && (r->Ok_0).1 == len,
            Err(error) => r == Err::<(usize, usize), RegionError>(error),
        },
{
    let s = text::characters(stat);
    let mut at: usize = s.len();
    while at > 0 && s[at - 1] != ')'
        invariant
            at <= s@.len(),
            forall|i: int| at <= i < s@.len() ==> s@[i] != ')',
        decreases at,
    {
        at = at - 1;
    }
    proof {
        lemma_after_command(s@, at as int);
    }
    if at == 0 {
        return Err(RegionError::Unparseable);
    }
    let rest = &s.as_slice()[at..s.len()];
    proof {
        assert(rest@ =~= s@.skip(at as int));
    }
    let all = fields_of(rest);
    proof {
        assert(fields(rest@).len() == all@.len());
    }
    if all.len() <= 45 {
        return Err(RegionError::NoStart);
    }
    proof {
        assert(fields(rest@)[45] == all@[45]@);
    }
    match text::parse_usize(&all[45], 10) {
        None => Err(RegionError::BadNumber),
        Some(start) => {
            if all.len() <= 46 {
                return Err(RegionError::NoEnd);
            }
            proof {
                assert(fields(rest@)[46] == all@[46]@);
            }
            match text::parse_usize(&all[46], 10) {
                None => Err(RegionError::BadNumber),
                Some(end) => if start == 0 || end <= start {
                    Err(RegionError::NoRegion { start, end })
                } else {
                    Ok((start, end - start))
                },
            }
        },
    }
}

/// A title says what a process is: a template where it is frozen, else an
/// instance, of this service in this version, with the beginning of its
/// recipe's digest where it has one, and where it listens once it does.
pub proof fn law_a_title_says_what_a_process_is(
    name: Seq<char>,
    version: Seq<char>,
    recipe: Option<Seq<u8>>,
    doing: Doing,
    endpoint: Seq<char>,
)
    requires
        recipe matches Some(digest) ==> digest.len() >= 4,
    ensures
        ({
            let shown = title(name, version, recipe, doing);
            let template = title(name, version, recipe, Doing::Frozen);
            let starting = title(name, version, recipe, Doing::Starting);
            let serving = title(name, version, recipe, Doing::Serving(endpoint));
            &&& ("servicecache template "@ + name + "@"@ + version).is_prefix_of(template)
            &&& doing != Doing::Frozen ==> ("servicecache instance "@ + name + "@"@
                + version).is_prefix_of(shown)
            &&& serving.skip(serving.len() - (" listening on "@ + endpoint).len())
                == " listening on "@ + endpoint
            &&& starting.skip(starting.len() - " starting"@.len()) == " starting"@
            &&& recipe is None ==> template == "servicecache template "@ + name + "@"@ + version
            &&& recipe matches Some(digest) ==> template == "servicecache template "@ + name + "@"@
                + version + " recipe "@ + text::hex(digest.take(4)) && text::hex(
                digest.take(4),
            ).len() == 8
        }),
{
    reveal_strlit("");
    let shown = title(name, version, recipe, doing);
    let template = title(name, version, recipe, Doing::Frozen);
    let starting = title(name, version, recipe, Doing::Starting);
    let serving = title(name, version, recipe, Doing::Serving(endpoint));
    let one = "servicecache template "@ + name + "@"@ + version;
    let other = "servicecache instance "@ + name + "@"@ + version;
    assert(one =~= template.subrange(0, one.len() as int));
    if doing != Doing::Frozen {
        assert(other =~= shown.subrange(0, other.len() as int));
    }
    let end = " listening on "@ + endpoint;
    assert(serving.skip(serving.len() - end.len()) =~= end);
    assert(starting.skip(starting.len() - " starting"@.len()) =~= " starting"@);
    if recipe is Some {
        let digest = recipe->0;
        assert(template =~= one + " recipe "@ + text::hex(digest.take(4)));
        text::law_hex_reads_back(digest.take(4), 0);
    } else {
        assert(template =~= one);
    }
}

/// A title written over a buffer is as much of it as leaves room for an end,
/// and nothing else of the buffer stays.
pub proof fn law_a_title_fills_its_buffer(title: Seq<u8>, len: int)
    requires
        len > 0,
    ensures
        overwritten(title, len).len() == len,
        overwritten(title, len).last() == 0,
        title.len() < len ==> overwritten(title, len).take(title.len() as int) == title,
        title.len() >= len ==> overwritten(title, len).drop_last() == title.take(len - 1),
        forall|i: int|
            title.len() <= i < len ==> #[trigger] overwritten(title, len)[i] == 0,
{
    if title.len() < len {
        assert(overwritten(title, len).take(title.len() as int) =~= title);
    } else {
        assert(overwritten(title, len).drop_last() =~= title.take(len - 1));
    }
}

proof fn lemma_word_runs(word: Seq<char>, rest: Seq<char>)
    requires
        forall|i: int| 0 <= i < word.len() ==> !is_ascii_space(#[trigger] word[i]),
        rest.len() == 0 || is_ascii_space(rest[0]),
    ensures
        run_length(word + rest, false) == word.len(),
    decreases word.len(),
{
    if word.len() > 0 {
        let less = word.drop_first();
        assert((word + rest).drop_first() =~= less + rest);
        assert forall|i: int| 0 <= i < less.len() implies !is_ascii_space(#[trigger] less[i]) by {
            assert(less[i] == word[i + 1]);
        }
        lemma_word_runs(less, rest);
        assert((word + rest)[0] == word[0]);
    } else {
        assert(word + rest =~= rest);
    }
}

/// Fields are words with white space around them: a word in front is the first
/// field, a space in front counts for nothing.
pub proof fn law_fields_are_words(word: Seq<char>, space: char, rest: Seq<char>)
    requires
        word.len() > 0,
        forall|i: int|
            0 <= i < word.len() ==> (#[trigger] word[i]) != ' ' && word[i] != '\t' && word[i]
                != '\n' && word[i] != '\r' && word[i] != '\u{c}',
        space == ' ' || space == '\t' || space == '\n' || space == '\r' || space == '\u{c}',
    ensures
        fields(Seq::empty()) == Seq::<Seq<char>>::empty(),
        fields(word) == seq![word],
        fields(seq![space] + rest) == fields(rest),
        fields(word + seq![space] + rest) == seq![word] + fields(rest),
{
    let nothing = Seq::<char>::empty();
    assert(nothing.skip(0) =~= nothing);
    assert forall|i: int| 0 <= i < word.len() implies !is_ascii_space(#[trigger] word[i]) by {}
    lemma_word_runs(word, nothing);
    assert(word + nothing =~= word);
    assert(run_length(word, true) == 0);
    assert(word.skip(0) =~= word);
    assert(word.take(word.len() as int) =~= word);
    assert(word.skip(word.len() as int) =~= nothing);
    assert(fields(nothing) =~= Seq::<Seq<char>>::empty());
    assert(fields(word) =~= seq![word]);
    lemma_space_in_front(space, rest);
    let tail = seq![space] + rest;
    lemma_word_runs(word, tail);
    let whole = word + seq![space] + rest;
    assert(whole =~= word + tail);
    assert(whole[0] == word[0]);
    assert(run_length(whole, true) == 0);
    assert(whole.skip(0) =~= whole);
    assert(whole.take(word.len() as int) =~= word);
    assert(whole.skip(word.len() as int) =~= tail);
}

proof fn lemma_space_in_front(space: char, rest: Seq<char>)
    requires
        is_ascii_space(space),
    ensures
        fields(seq![space] + rest) == fields(rest),
{
    let s = seq![space] + rest;
    assert(s.drop_first() =~= rest);
    lemma_run_length(rest, true);
    let n = run_length(rest, true) as int;
    assert(run_length(s, true) == n + 1);
    assert(s.skip(n + 1) =~= rest.skip(n));
}

/// Where a process's arguments stand is what the two fields for it say, counted
/// behind the last closing bracket: they give the start and the end.
pub proof fn law_the_arguments_stand_where_the_fields_say(
    command: Seq<char>,
    rest: Seq<char>,
    start: nat,
    end: nat,
)
    requires
        !rest.contains(')'),
    ensures
        ({
            let found = region_of(command + seq![')'] + rest);
            let all = fields(rest);
            &&& all.len() < 46 ==> found == Err::<(int, int), RegionError>(RegionError::NoStart)
            &&& all.len() == 46 && all[45] == text::decimal(start) && start <= usize::MAX ==> found
                == Err::<(int, int), RegionError>(RegionError::NoEnd)
            &&& all.len() > 46 && all[45] == text::decimal(start) && all[46] == text::decimal(end)
                && start <= usize::MAX && end <= usize::MAX ==> if 0 < start < end {
                found == Ok::<(int, int), RegionError>((start as int, end - start))
            } else {
                found == Err::<(int, int), RegionError>(
                    RegionError::NoRegion { start: start as usize, end: end as usize },
                )
            }
            &&& region_of(rest) == Err::<(int, int), RegionError>(RegionError::Unparseable)
        }),
{
    let stat = command + seq![')'] + rest;
    let k = (command.len() + 1) as int;
    assert forall|i: int| k <= i < stat.len() implies stat[i] != ')' by {
        assert(stat[i] == rest[i - k]);
        assert(rest.contains(rest[i - k]));
    }
    lemma_after_command(stat, k);
    assert(stat.skip(k) =~= rest);
    assert forall|i: int| 0 <= i < rest.len() implies rest[i] != ')' by {
        assert(rest.contains(rest[i]));
    }
    lemma_after_command(rest, 0);
    text::law_a_number_reads_back(start, usize::MAX as int);
    text::law_a_number_reads_back(end, usize::MAX as int);
}

/// What a host does is seen as it is.
pub proof fn law_what_a_host_does_is_seen(state: State, digest: &[u8; 32])
    ensures
        state is Starting <==> state@ is Starting,
        state is Frozen <==> state@ is Frozen,
        state matches State::Serving(endpoint) ==> state@ == Doing::Serving(endpoint@),
        digest_view(Some(digest)) == Some(digest@),
        digest_view(None) is None,
{
}

} // verus!
