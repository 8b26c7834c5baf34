//! Log filters: which directives are in effect.
//!
//! They are taken from `--log`, else from `-v` repeated, else from
//! `SERVICECACHE_LOG`, else `warn`. The `-v` levels: one informs about this
//! program's steps; two adds their details and the runtime's; three traces
//! both; four traces everything. A host process is given the manager's
//! directives on its command line, so `-v` on the manager applies to its
//! hosts and their clones.

use crate::directives;
use crate::text;
use tracing_subscriber::EnvFilter;
use vstd::prelude::*;

verus! {

/// The directives for `-v` repeated `verbosity` times.
pub open spec fn directives_text(verbosity: int) -> Seq<char> {
    if verbosity == 0 {
        "warn"@
    } else if verbosity == 1 {
        "warn,servicecache=info"@
    } else if verbosity == 2 {
        "warn,servicecache=debug,wasmer_vm::trap::suspend=debug,virtual_mio::selector=debug,virtual_net::host=debug"@
    } else if verbosity == 3 {
        "info,servicecache=trace,wasmer_vm::trap::suspend=trace,virtual_mio::selector=trace,virtual_net::host=trace"@
    } else {
        "trace"@
    }
}

/// The directives for `-v` repeated `verbosity` times.
pub fn directives_for(verbosity: u8) -> (r: String)
    ensures
        r@ == directives_text(verbosity as int),
{
    match verbosity {
        0 => "warn".to_owned(),
        1 => "warn,servicecache=info".to_owned(),
        2 => "warn,servicecache=debug,wasmer_vm::trap::suspend=debug,virtual_mio::selector=debug,virtual_net::host=debug".to_owned(),
        3 => "info,servicecache=trace,wasmer_vm::trap::suspend=trace,virtual_mio::selector=trace,virtual_net::host=trace".to_owned(),
        _ => "trace".to_owned(),
    }
}

/// The directives that are chosen: the flag's, else those for `-v`, else the
/// environment's, else the default.
pub open spec fn chosen(verbosity: u8, log: Option<&str>, environment: Option<&str>) -> Seq<char> {
    match (log, environment) {
        (Some(log), _) => log@,
        (None, Some(environment)) => if verbosity == 0 {
            environment@
        } else {
            directives_text(verbosity as int)
        },
        (None, None) => directives_text(verbosity as int),
    }
}

/// The directives that are chosen.
pub fn choose_directives(verbosity: u8, log: Option<&str>, environment: Option<&str>) -> (r: String)
    ensures
        r@ == chosen(verbosity, log, environment),
{
    if let Some(log) = log {
        return log.to_owned();
    }
    if verbosity == 0 {
        if let Some(environment) = environment {
            return environment.to_owned();
        }
    }
    directives_for(verbosity)
}

/// Whether the parser cuts directives between their characters only.
pub open spec fn is_parseable(directives: Seq<char>) -> bool {
    directives::first_stop(directives) is None
}

/// What the parser of a filter's directives says against them, where it
/// refuses them.
pub uninterp spec fn directives_error(directives: Seq<char>) -> Option<Seq<char>>;

/// `EnvFilter::try_new` of `tracing_subscriber`: the text of its error, as
/// [`directives_error`] has it; `None` where it makes a filter. It panics where
/// it cuts a directive inside a character, which [`is_parseable`] rules out.
#[verifier::external_body]
fn refusal(directives: &str) -> (r: Option<String>)
    requires
        is_parseable(directives@),
    ensures
        text::optional_view(r) == directives_error(directives@),
{
    EnvFilter::try_new(directives).err().map(|error| error.to_string())
}

/// Why directives are no filter.
pub open spec fn bad_directives(directives: Seq<char>, error: Seq<char>) -> Seq<char> {
    "bad log directives "@ + text::text_debug(directives) + ": "@ + error
}

/// What is said against directives that the parser would cut inside a
/// character.
pub const UNPARSEABLE: &'static str = "white space before a directive that is not ASCII";

/// What is said against directives, where they make no filter. Where a cut
/// would fall inside a character, the parser is asked about what comes before
/// it: it may refuse that, and then never comes to the cut.
pub open spec fn objection(directives: Seq<char>) -> Option<Seq<char>> {
    match directives::first_stop(directives) {
        None => directives_error(directives),
        Some(stop) => match directives_error(directives.take(stop)) {
            Some(error) => Some(error),
            None => Some(UNPARSEABLE@),
        },
    }
}

/// What is said against directives, where they make no filter.
fn object(directives: &str) -> (r: Option<String>)
    ensures
        text::optional_view(r) == objection(directives@),
{
    let characters = text::characters(directives);
    match directives::stop(characters.as_slice()) {
        None => refusal(directives),
        Some(stop) => {
            proof {
                directives::lemma_first_stop(directives@);
            }
            let before = text::text_of(&characters.as_slice()[0..stop]);
            proof {
                assert(before@ =~= directives@.take(stop as int));
            }
            match refusal(before.as_str()) {
                Some(error) => Some(error),
                None => Some(UNPARSEABLE.to_owned()),
            }
        },
    }
}

/// The directives in effect after a call that chose `directives`, given those
/// in effect before: the first that make a filter stay.
pub open spec fn in_effect(set: Option<Seq<char>>, directives: Seq<char>) -> Option<Seq<char>> {
    if set is None && objection(directives) is None {
        Some(directives)
    } else {
        set
    }
}

/// Chooses the directives of this process and sets them, unless some are set
/// already; gives them back where they make a filter.
pub fn init(
    logging: &mut Logging,
    verbosity: u8,
    log: Option<&str>,
    environment: Option<&str>,
) -> (r: Result<String, String>)
    ensures
        ({
            let directives = chosen(verbosity, log, environment);
            &&& match objection(directives) {
                None => r is Ok && (r->Ok_0)@ == directives,
                Some(error) => r is Err && (r->Err_0)@ == bad_directives(directives, error),
            }
            &&& text::optional_view(final(logging).directives) == in_effect(
                text::optional_view(old(logging).directives),
                directives,
            )
        }),
{
    let directives = choose_directives(verbosity, log, environment);
    let refused = object(directives.as_str());
    let r = checked(directives, refused);
    if let Ok(directives) = &r {
        logging.set(directives.clone());
    }
    r
}

/// What becomes of directives, given what the parser says against them.
pub fn checked(directives: String, refused: Option<String>) -> (r: Result<String, String>)
    ensures
        match refused {
            None => r == Ok::<String, String>(directives),
            Some(error) => r is Err && (r->Err_0)@ == bad_directives(directives@, error@),
        },
{
    match refused {
        None => Ok(directives),
        Some(error) => {
            let mut out = "bad log directives ".to_owned();
            out.append(text::debug_text(directives.as_str()).as_str());
            out.append(": ");
            out.append(error.as_str());
            Err(out)
        },
    }
}

/// The directives of a process, once they are set. Only the first setting
/// counts.
#[derive(Debug)]
pub struct Logging {
    pub directives: Option<String>,
}

impl Logging {
    /// Nothing is set.
    pub fn new() -> (r: Self)
        ensures
            r.directives is None,
    {
        Logging { directives: None }
    }

    /// Sets the directives, unless they are set already.
    pub fn set(&mut self, directives: String)
        ensures
            final(self).directives == match old(self).directives {
                Some(set) => Some(set),
                None => Some(directives),
            },
    {
        if self.directives.is_none() {
            self.directives = Some(directives);
        }
    }
}

/// The directives in effect, once they are set.
pub fn directives(logging: &Logging) -> (r: Option<&str>)
    ensures
        match logging.directives {
            Some(set) => r is Some && (r->0)@ == set@,
            None => r is None,
        },
{
    match &logging.directives {
        Some(set) => Some(set.as_str()),
        None => None,
    }
}

/// The directives in effect after calls that chose these, one after the other.
pub open spec fn in_effect_after(calls: Seq<Seq<char>>) -> Option<Seq<char>>
    decreases calls.len(),
{
    if calls.len() == 0 {
        None
    } else {
        in_effect(in_effect_after(calls.drop_last()), calls.last())
    }
}

/// Nothing is in effect before a call has succeeded; from the first that does,
/// what it chose stays in effect, whatever is called later.
pub proof fn law_the_first_filter_stays(calls: Seq<Seq<char>>, first: int)
    requires
        0 <= first <= calls.len(),
        forall|i: int| 0 <= i < first ==> objection(#[trigger] calls[i]) is Some,
        first < calls.len() ==> objection(calls[first]) is None,
    ensures
        in_effect_after(calls) == if first < calls.len() {
            Some(calls[first])
        } else {
            None
        },
    decreases calls.len(),
{
    if calls.len() > 0 {
        let before = calls.drop_last();
        if first == calls.len() {
            law_the_first_filter_stays(before, first - 1);
        } else {
            assert(first < before.len() ==> before[first] == calls[first]);
            law_the_first_filter_stays(before, first);
        }
    }
}

/// Directives given for this run win. Else the verbosity decides where it was
/// asked for, and the environment where it was not.
pub proof fn law_given_directives_win(verbosity: u8, log: &str, environment: &str)
    ensures
        chosen(verbosity, Some(log), None) == log@,
        chosen(verbosity, Some(log), Some(environment)) == log@,
        chosen(0, None, Some(environment)) == environment@,
        verbosity > 0 ==> chosen(verbosity, None, Some(environment)) == chosen(
            verbosity,
            None,
            None,
        ),
        chosen(0, None, None) == "warn"@,
        chosen(1, None, None) == "warn,servicecache=info"@,
        verbosity >= 4 ==> chosen(verbosity, None, None) == "trace"@,
{
}

/// More verbosity shows more: the service itself goes from informational
/// messages over debugging to tracing, everything else from warnings over
/// informational messages to tracing.
pub proof fn law_more_verbosity_shows_more(verbosity: int)
    requires
        verbosity >= 0,
    ensures
        ({
            let said = directives_text(verbosity);
            &&& verbosity <= 2 ==> "warn"@.is_prefix_of(said)
            &&& verbosity == 0 ==> said == "warn"@
            &&& verbosity == 1 ==> said == "warn,servicecache=info"@
            &&& verbosity == 2 ==> "warn,servicecache=debug,"@.is_prefix_of(said)
            &&& verbosity == 3 ==> "info,servicecache=trace,"@.is_prefix_of(said)
            &&& verbosity >= 4 ==> said == "trace"@
        }),
{
    let said = directives_text(verbosity);
    reveal_strlit("warn");
    reveal_strlit("warn,servicecache=info");
    reveal_strlit("warn,servicecache=debug,");
    reveal_strlit("info,servicecache=trace,");
    reveal_strlit(
        "warn,servicecache=debug,wasmer_vm::trap::suspend=debug,virtual_mio::selector=debug,virtual_net::host=debug",
    );
    reveal_strlit(
        "info,servicecache=trace,wasmer_vm::trap::suspend=trace,virtual_mio::selector=trace,virtual_net::host=trace",
    );
    if verbosity <= 2 {
        assert("warn"@ =~= said.subrange(0, 4));
    }
    if verbosity == 2 {
        assert("warn,servicecache=debug,"@ =~= said.subrange(0, 24));
    }
    if verbosity == 3 {
        assert("info,servicecache=trace,"@ =~= said.subrange(0, 24));
    }
}

/// Directives are refused exactly where what is read of them is, or where not
/// all of them can be read. What is wrong with the part that is read is said
/// first. They take effect where they are not refused and none did before.
pub proof fn law_when_directives_are_refused(directives: Seq<char>, set: Option<Seq<char>>)
    ensures
        objection(directives) is None <==> is_parseable(directives) && directives_error(
            directives,
        ) is None,
        is_parseable(directives) ==> objection(directives) == directives_error(directives),
        directives::first_stop(directives) matches Some(stop) ==> (directives_error(
            directives.take(stop),
        ) is Some ==> objection(directives) == directives_error(directives.take(stop))),
        set is Some ==> in_effect(set, directives) == set,
        set is None && objection(directives) is None ==> in_effect(set, directives) == Some(
            directives,
        ),
        set is None && objection(directives) is Some ==> in_effect(set, directives) is None,
        (forall|i: int| 0 <= i < directives.len() ==> #[trigger] directives[i] <= '\u{7f}')
            ==> is_parseable(directives),
{
    if forall|i: int| 0 <= i < directives.len() ==> #[trigger] directives[i] <= '\u{7f}' {
        directives::law_ascii_directives_can_be_cut(directives);
    }
}

/// What is said of refused directives shows them, and ends with why.
pub proof fn law_refused_directives_are_shown(directives: Seq<char>, error: Seq<char>)
    ensures
        ("bad log directives "@ + text::text_debug(directives)).is_prefix_of(
            bad_directives(directives, error),
        ),
        bad_directives(directives, error).skip(
            bad_directives(directives, error).len() - error.len(),
        ) == error,
{
    let said = bad_directives(directives, error);
    let start = "bad log directives "@ + text::text_debug(directives);
    assert(start =~= said.subrange(0, start.len() as int));
    assert(said.skip(said.len() - error.len()) =~= error);
}

} // verus!
