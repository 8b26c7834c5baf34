//! Recipes read from files the request names. The roots bound what a
//! request can name. Confinement is checked on what was opened, not on the
//! requested path, so a swapped symlink cannot slip past it.

use super::api;
use super::api::Problem;
use crate::path;
use crate::path::UnixPath;
use vstd::prelude::*;

verus! {

/// The directories recipe files may come from, canonicalized. Empty means
/// the feature is off.
#[derive(Debug)]
pub struct Roots(pub Vec<UnixPath>);

/// What the filesystem says of a root that was asked for.
#[derive(Debug)]
pub struct RootFacts {
    pub dir: UnixPath,
    /// What it resolves to, or why it does not.
    pub canonical: Result<UnixPath, String>,
    /// Whether that is a directory.
    pub is_dir: bool,
}

/// What is wrong with a root, in words.
pub open spec fn root_fault(facts: RootFacts) -> Option<Seq<char>> {
    match facts.canonical {
        Err(error) => Some("--recipe-root "@ + path::lossy(facts.dir@) + ": "@ + error@),
        Ok(_) => if facts.is_dir {
            None
        } else {
            Some("--recipe-root "@ + path::lossy(facts.dir@) + " is not a directory"@)
        },
    }
}

/// What is wrong with the first root that something is wrong with.
pub open spec fn roots_fault(facts: Seq<RootFacts>) -> Option<Seq<char>>
    decreases facts.len(),
{
    if facts.len() == 0 {
        None
    } else {
        match root_fault(facts[0]) {
            Some(fault) => Some(fault),
            None => roots_fault(facts.drop_first()),
        }
    }
}

/// Whether a path is under one of the roots.
pub open spec fn under_a_root(roots: Seq<UnixPath>, file: Seq<u8>) -> bool {
    exists|i: int| 0 <= i < roots.len() && path::is_within(file, (#[trigger] roots[i])@)
}

impl Roots {
    /// The roots, canonicalized; each must exist and be a directory, so a
    /// misspelt flag stops the server rather than silently refusing every
    /// request.
    pub fn new(facts: &Vec<RootFacts>) -> (r: Result<Roots, String>)
        ensures
            match roots_fault(facts@) {
                Some(fault) => r is Err && (r->Err_0)@ == fault,
                None => {
                    &&& r is Ok
                    &&& (r->Ok_0).0@.len() == facts@.len()
                    &&& forall|i: int|
                        0 <= i < facts@.len() ==> (#[trigger] (r->Ok_0).0@[i])@ == (
                        facts@[i].canonical->Ok_0)@
                },
            },
    {
        let mut roots: Vec<UnixPath> = Vec::new();
        let mut i: usize = 0;
        proof {
            assert(facts@.skip(0) =~= facts@);
        }
        while i < facts.len()
            invariant
                i <= facts@.len(),
                roots@.len() == i,
                roots_fault(facts@) == roots_fault(facts@.skip(i as int)),
                forall|j: int|
                    0 <= j < i ==> (#[trigger] roots@[j])@ == (facts@[j].canonical->Ok_0)@,
            decreases facts@.len() - i,
        {
            proof {
                assert(facts@.skip(i as int).drop_first() =~= facts@.skip(i + 1));
            }
            let mut out = "--recipe-root ".to_owned();
            out.append(facts[i].dir.display().as_str());
            match &facts[i].canonical {
                Err(error) => {
                    out.append(": ");
                    out.append(error.as_str());
                    return Err(out);
                },
                Ok(root) => {
                    if !facts[i].is_dir {
                        out.append(" is not a directory");
                        return Err(out);
                    }
                    roots.push(root.clone());
                },
            }
            i = i + 1;
        }
        Ok(Roots(roots))
    }

    /// Whether no roots are configured: the feature is off.
    pub fn is_empty(&self) -> (r: bool)
        ensures
            r == (self.0@.len() == 0),
    {
        self.0.len() == 0
    }

    /// Whether a path is under one of the roots.
    pub fn contains(&self, file: &UnixPath) -> (r: bool)
        ensures
            r == under_a_root(self.0@, file@),
    {
        let mut i: usize = 0;
        while i < self.0.len()
            invariant
                i <= self.0@.len(),
                forall|j: int| 0 <= j < i ==> !path::is_within(file@, (#[trigger] self.0@[j])@),
            decreases self.0@.len() - i,
        {
            if file.is_within(&self.0[i]) {
                return true;
            }
            i = i + 1;
        }
        false
    }
}

/// What opening a recipe file showed.
#[derive(Debug)]
pub struct Opened {
    pub is_file: bool,
    /// The size that was stated.
    pub len: u64,
    /// What was actually opened, after every symlink.
    pub real: Result<UnixPath, String>,
}

/// The bytes of a line feed.
pub const LINE_FEED: u8 = 10;

/// What a recipe is before the next file goes to its end: with a line feed
/// where one is missing, so statements never fuse across files.
pub open spec fn terminated(recipe: Seq<u8>) -> Seq<u8> {
    if recipe.len() > 0 && recipe.last() != LINE_FEED {
        recipe.push(LINE_FEED)
    } else {
        recipe
    }
}

/// The files one after the other, with a line feed between two where one is
/// missing.
pub open spec fn concatenated(files: Seq<Seq<u8>>) -> Seq<u8>
    decreases files.len(),
{
    if files.len() == 0 {
        Seq::empty()
    } else {
        terminated(concatenated(files.drop_last())) + files.last()
    }
}

/// A recipe being read from files, and how long it may become.
#[derive(Debug)]
pub struct RecipeReader {
    pub recipe: Vec<u8>,
    pub max_len: usize,
}

/// What is wrong with a recipe file before it is read.
pub open spec fn file_problem(
    roots: Seq<UnixPath>,
    file: Seq<char>,
    opened: Result<Opened, String>,
    recipe: Seq<u8>,
    max_len: nat,
) -> Option<api::ProblemView> {
    match opened {
        Err(error) => Some(api::recipe_file_invalid_problem(file, error@)),
        Ok(opened) => if !opened.is_file {
            Some(api::recipe_file_invalid_problem(file, "not a regular file"@))
        } else {
            match opened.real {
                Err(error) => Some(api::recipe_file_invalid_problem(file, error@)),
                Ok(target) => if !under_a_root(roots, target@) {
                    Some(
                        api::recipe_files_refused_problem(
                            file + " is outside every --recipe-root"@,
                        ),
                    )
                } else if terminated(recipe).len() + opened.len > max_len {
                    Some(api::recipe_too_large_problem(max_len))
                } else {
                    None
                },
            }
        },
    }
}

/// Whether an opened file is one that may be read, whatever its size.
pub open spec fn may_be_read(roots: Seq<UnixPath>, opened: Result<Opened, String>) -> bool {
    &&& opened matches Ok(opened)
    &&& opened.is_file
    &&& opened.real matches Ok(target)
    &&& under_a_root(roots, target@)
}

impl RecipeReader {
    /// The recipe is no longer than it may be.
    pub open spec fn valid(self) -> bool {
        self.recipe@.len() <= self.max_len
    }

    /// A recipe of nothing.
    pub fn new(max_len: usize) -> (r: Self)
        ensures
            r.valid(),
            r.max_len == max_len,
            r.recipe@ == concatenated(Seq::empty()),
    {
        proof {
            assert(concatenated(Seq::empty()) =~= Seq::<u8>::empty());
        }
        RecipeReader { recipe: Vec::new(), max_len }
    }

    /// Refuses a file that is not named by an absolute path.
    pub fn check_name(file: &str) -> (r: Result<(), Problem>)
        ensures
            r is Ok <==> path::is_absolute(vstd::utf8::encode_utf8(file@)),
            r is Err ==> (r->Err_0)@ == api::recipe_file_invalid_problem(
                file@,
                "not an absolute path"@,
            ),
    {
        if UnixPath::from_text(file).is_absolute() {
            Ok(())
        } else {
            Err(Problem::recipe_file_invalid(file, "not an absolute path"))
        }
    }

    /// Takes what opening a file showed: how many bytes of it may be read, or
    /// why it is refused.
    pub fn open(&mut self, roots: &Roots, file: &str, opened: Result<Opened, String>) -> (r: Result<
        usize,
        Problem,
    >)
        requires
            old(self).valid(),
        ensures
            final(self).max_len == old(self).max_len,
            match file_problem(
                roots.0@,
                file@,
                opened,
                old(self).recipe@,
                old(self).max_len as nat,
            ) {
                Some(problem) => {
                    &&& r is Err
                    &&& (r->Err_0)@ == problem
                    &&& final(self).recipe@ == if may_be_read(roots.0@, opened) {
                        terminated(old(self).recipe@)
                    } else {
                        old(self).recipe@
                    }
                },
                None => {
                    &&& r is Ok
                    &&& final(self).recipe@ == terminated(old(self).recipe@)
                    &&& final(self).valid()
                    &&& r->Ok_0 == final(self).max_len - final(self).recipe@.len()
                },
            },
    {
        let opened = match opened {
            Ok(opened) => opened,
            Err(error) => {
                return Err(Problem::recipe_file_invalid(file, error.as_str()));
            },
        };
        if !opened.is_file {
            return Err(Problem::recipe_file_invalid(file, "not a regular file"));
        }
        match &opened.real {
            Err(error) => {
                return Err(Problem::recipe_file_invalid(file, error.as_str()));
            },
            Ok(target) => {
                if !roots.contains(target) {
                    let mut detail = file.to_owned();
                    detail.append(" is outside every --recipe-root");
                    return Err(Problem::recipe_files_refused(detail.as_str()));
                }
            },
        }
        let len: usize = self.recipe.len();
        if len > 0 && self.recipe[len - 1] != LINE_FEED {
            self.recipe.push(LINE_FEED);
        }
        if self.recipe.len() > self.max_len {
            return Err(Problem::recipe_too_large(self.max_len));
        }
        let remaining: usize = self.max_len - self.recipe.len();
        if opened.len > remaining as u64 {
            return Err(Problem::recipe_too_large(self.max_len));
        }
        Ok(remaining)
    }

    /// Takes what was read of a file, at most one byte more than may be: a
    /// file that grew past the cap meanwhile is refused too.
    pub fn append(&mut self, file: &str, contents: Result<Vec<u8>, String>) -> (r: Result<
        (),
        Problem,
    >)
        requires
            old(self).valid(),
        ensures
            final(self).max_len == old(self).max_len,
            final(self).valid(),
            match contents {
                Err(error) => {
                    &&& r is Err
                    &&& (r->Err_0)@ == api::recipe_file_invalid_problem(file@, error@)
                    &&& final(self).recipe@ == old(self).recipe@
                },
                Ok(bytes) => if old(self).recipe@.len() + bytes@.len() > old(self).max_len {
                    &&& r is Err
                    &&& (r->Err_0)@ == api::recipe_too_large_problem(old(self).max_len as nat)
                    &&& final(self).recipe@ == old(self).recipe@
                } else {
                    &&& r is Ok
                    &&& final(self).recipe@ == old(self).recipe@ + bytes@
                },
            },
    {
        match contents {
            Err(error) => Err(Problem::recipe_file_invalid(file, error.as_str())),
            Ok(bytes) => {
                if bytes.len() > self.max_len - self.recipe.len() {
                    return Err(Problem::recipe_too_large(self.max_len));
                }
                let ghost before = self.recipe@;
                self.recipe.extend_from_slice(&bytes);
                proof {
                    assert(self.recipe@ =~= before + bytes@);
                }
                Ok(())
            },
        }
    }
}

/// A file that is opened and read goes to the end of the recipe as the next
/// of its files: reading them in turn gives the files one after the other.
pub proof fn law_files_are_read_in_turn(files: Seq<Seq<u8>>, file: Seq<u8>)
    ensures
        terminated(concatenated(files)) + file == concatenated(files.push(file)),
{
    assert(files.push(file).drop_last() =~= files);
}

/// Each file's bytes stand in the recipe unchanged.
pub proof fn law_every_file_stands_in_the_recipe(files: Seq<Seq<u8>>, k: int)
    requires
        0 <= k < files.len(),
    ensures
        exists|from: int|
            {
                &&& 0 <= from
                &&& from + files[k].len() <= concatenated(files).len()
                &&& #[trigger] concatenated(files).subrange(from, from + files[k].len())
                    == files[k]
            },
    decreases files.len(),
{
    let rest = files.drop_last();
    let whole = concatenated(files);
    let start = terminated(concatenated(rest));
    if k == files.len() - 1 {
        let from = start.len() as int;
        assert(whole.subrange(from, from + files[k].len()) =~= files[k]);
    } else {
        law_every_file_stands_in_the_recipe(rest, k);
        let from = choose|from: int|
            {
                &&& 0 <= from
                &&& from + rest[k].len() <= concatenated(rest).len()
                &&& #[trigger] concatenated(rest).subrange(from, from + rest[k].len()) == rest[k]
            };
        assert(whole.subrange(from, from + files[k].len()) =~= concatenated(rest).subrange(
            from,
            from + rest[k].len(),
        ));
    }
}

/// A root may be used exactly where it resolves to a directory. Roots may be
/// used where each of them may, and else the first that may not is the one that
/// is refused.
pub proof fn law_roots_are_directories(facts: Seq<RootFacts>)
    ensures
        roots_fault(facts) is None <==> forall|i: int|
            0 <= i < facts.len() ==> (#[trigger] facts[i]).canonical is Ok && facts[i].is_dir,
        roots_fault(facts) matches Some(said) ==> exists|i: int|
            {
                &&& 0 <= i < facts.len()
                &&& !((#[trigger] facts[i]).canonical is Ok && facts[i].is_dir)
                &&& ("--recipe-root "@ + path::lossy(facts[i].dir@)).is_prefix_of(said)
                &&& forall|j: int|
                    0 <= j < i ==> (#[trigger] facts[j]).canonical is Ok && facts[j].is_dir
            },
    decreases facts.len(),
{
    if facts.len() > 0 {
        let rest = facts.drop_first();
        law_roots_are_directories(rest);
        let first = facts[0];
        if first.canonical is Ok && first.is_dir {
            if roots_fault(rest) is None {
                assert forall|i: int| 0 <= i < facts.len() implies (
                #[trigger] facts[i]).canonical is Ok && facts[i].is_dir by {
                    if i > 0 {
                        assert(rest[i - 1] == facts[i]);
                    }
                }
            } else {
                let said = roots_fault(rest)->0;
                let i = choose|i: int|
                    {
                        &&& 0 <= i < rest.len()
                        &&& !((#[trigger] rest[i]).canonical is Ok && rest[i].is_dir)
                        &&& ("--recipe-root "@ + path::lossy(rest[i].dir@)).is_prefix_of(said)
                        &&& forall|j: int|
                            0 <= j < i ==> (#[trigger] rest[j]).canonical is Ok && rest[j].is_dir
                    };
                assert(facts[i + 1] == rest[i]);
                assert forall|j: int| 0 <= j < i + 1 implies (
                #[trigger] facts[j]).canonical is Ok && facts[j].is_dir by {
                    if j > 0 {
                        assert(rest[j - 1] == facts[j]);
                    }
                }
            }
        } else {
            let said = roots_fault(facts)->0;
            let start = "--recipe-root "@ + path::lossy(first.dir@);
            assert(start =~= said.subrange(0, start.len() as int));
            assert(!(facts[0].canonical is Ok && facts[0].is_dir));
        }
    }
}

/// A recipe ends its last line with a line feed before another file follows,
/// and loses nothing by it.
pub proof fn law_a_recipe_ends_its_last_line(recipe: Seq<u8>, first: Seq<u8>, second: Seq<u8>)
    ensures
        recipe.is_prefix_of(terminated(recipe)),
        recipe.len() == 0 ==> terminated(recipe).len() == 0,
        recipe.len() > 0 ==> terminated(recipe).last() == 10,
        recipe.len() > 0 && recipe.last() == 10 ==> terminated(recipe) == recipe,
        recipe.len() > 0 && recipe.last() != 10 ==> terminated(recipe).len() == recipe.len() + 1,
        concatenated(Seq::empty()) == Seq::<u8>::empty(),
        concatenated(seq![first]) == first,
        first.len() > 0 && first.last() != 10 ==> concatenated(seq![first, second]) == first
            + seq![10u8] + second,
        first.len() == 0 || first.last() == 10 ==> concatenated(seq![first, second]) == first
            + second,
{
    assert(recipe =~= terminated(recipe).subrange(0, recipe.len() as int));
    reveal_with_fuel(concatenated, 3);
    let one = seq![first];
    let two = seq![first, second];
    assert(one.drop_last() =~= Seq::<Seq<u8>>::empty());
    assert(two.drop_last() =~= one);
    assert(concatenated(one) =~= first);
    if first.len() > 0 && first.last() != 10 {
        assert(concatenated(two) =~= first + seq![10u8] + second);
    }
}

/// A recipe's file is taken exactly where it opened as a regular file, what was
/// opened lies below a root, and the recipe stays within its bound with it. A
/// file outside every root is refused whatever else is true of it, before its
/// size is looked at.
pub proof fn law_when_a_recipe_file_is_taken(
    roots: Seq<UnixPath>,
    file: Seq<char>,
    opened: Result<Opened, String>,
    recipe: Seq<u8>,
    max_len: nat,
)
    ensures
        ({
            let problem = file_problem(roots, file, opened, recipe, max_len);
            let below = opened is Ok && (opened->Ok_0).real is Ok && exists|i: int|
                0 <= i < roots.len() && path::is_within(
                    ((opened->Ok_0).real->Ok_0)@,
                    (#[trigger] roots[i])@,
                );
            let whole = recipe.len() + (if recipe.len() > 0 && recipe.last() != 10 {
                1int
            } else {
                0
            }) + (opened->Ok_0).len;
            &&& problem is None <==> opened is Ok && (opened->Ok_0).is_file && below && whole
                <= max_len
            &&& opened matches Err(error) ==> problem == Some(
                api::recipe_file_invalid_problem(file, error@),
            )
            &&& opened is Ok && !(opened->Ok_0).is_file ==> problem == Some(
                api::recipe_file_invalid_problem(file, "not a regular file"@),
            )
            &&& opened is Ok && (opened->Ok_0).is_file && (opened->Ok_0).real is Ok && !below
                ==> problem == Some(
                api::recipe_files_refused_problem(file + " is outside every --recipe-root"@),
            )
            &&& opened is Ok && (opened->Ok_0).is_file && below && whole > max_len ==> problem
                == Some(api::recipe_too_large_problem(max_len))
            &&& roots.len() == 0 ==> problem is Some
        }),
{
}

/// A file that lies directly in a root is below it; without a root nothing is.
pub proof fn law_what_is_in_a_root_is_below_it(roots: Seq<UnixPath>, i: int, name: Seq<u8>)
    requires
        0 <= i < roots.len(),
        roots[i]@.len() > 0,
        path::is_name(name),
    ensures
        under_a_root(roots, path::joined(roots[i]@, name)),
        !under_a_root(Seq::empty(), name),
{
    path::law_an_entry_stands_below_its_directory(roots[i]@, name, name);
}

} // verus!
