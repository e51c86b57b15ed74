//! Exclude globs: which paths are left out of an operation.

use vstd::prelude::*;

use crate::error::{error, Error, ErrorKind, Failure};
use crate::text;

verus! {

/// A parsed glob.
#[verifier::external_type_specification]
#[verifier::external_body]
pub struct ExGlob(globset::Glob);

/// A growing collection of globs.
#[verifier::external_type_specification]
#[verifier::external_body]
pub struct ExGlobSetBuilder(globset::GlobSetBuilder);

/// A finished collection of globs.
#[verifier::external_type_specification]
#[verifier::external_body]
pub struct ExGlobSet(globset::GlobSet);

/// What is wrong with `pattern` as a glob, if anything is. Whether a backslash
/// escapes what follows it is settled when the program is built: it does not
/// where it separates paths.
pub uninterp spec fn glob_fault(pattern: Seq<char>) -> Option<Seq<char>>;

/// Whether `pattern`, a well-formed glob, matches `path`. Of a backslash the
/// same holds as for [`glob_fault`].
pub uninterp spec fn glob_matches(pattern: Seq<char>, path: Seq<char>) -> bool;

/// The pattern that a glob was parsed from.
pub uninterp spec fn pattern_of(glob: globset::Glob) -> Seq<char>;

/// The patterns in a growing collection, in the order in which they came.
pub uninterp spec fn builder_patterns(builder: globset::GlobSetBuilder) -> Seq<Seq<char>>;

/// The patterns in a finished collection.
pub uninterp spec fn set_patterns(set: globset::GlobSet) -> Seq<Seq<char>>;

/// Calls `globset::Glob::new`. The contract says that whether a pattern parses,
/// and the message where it does not, depend on the pattern alone, and that the
/// glob keeps the pattern.
#[verifier::external_body]
pub(crate) fn parse_glob(pattern: &str) -> (r: Result<globset::Glob, String>)
    ensures
        match r {
            Ok(glob) => glob_fault(pattern@) is None && pattern_of(glob) == pattern@,
            Err(message) => glob_fault(pattern@) == Some(message@),
        },
{
    globset::Glob::new(pattern).map_err(|e| e.to_string())
}

/// Calls `globset::GlobSetBuilder::new`, which makes an empty collection.
#[verifier::external_body]
pub(crate) fn new_builder() -> (builder: globset::GlobSetBuilder)
    ensures
        builder_patterns(builder) == Seq::<Seq<char>>::empty(),
{
    globset::GlobSetBuilder::new()
}

/// Calls `globset::GlobSetBuilder::add`, which puts the glob behind the others.
#[verifier::external_body]
pub(crate) fn add_glob(builder: &mut globset::GlobSetBuilder, glob: globset::Glob)
    ensures
        builder_patterns(*final(builder)) == builder_patterns(*old(builder)).push(
            pattern_of(glob),
        ),
{
    builder.add(glob);
}

/// Calls `globset::GlobSetBuilder::build`. The contract says that the set holds
/// the globs that were added. It does not say when building fails: the limit on
/// the size of the compiled matcher depends on the machine.
#[verifier::external_body]
pub(crate) fn build_set(builder: &globset::GlobSetBuilder) -> (r: Result<globset::GlobSet, String>)
    ensures
        r matches Ok(set) ==> set_patterns(set) == builder_patterns(*builder),
{
    builder.build().map_err(|e| e.to_string())
}

/// Calls `globset::GlobSet::is_match`, which says whether any glob in the set
/// matches the path.
#[verifier::external_body]
pub(crate) fn set_matches(set: &globset::GlobSet, path: &str) -> (yes: bool)
    ensures
        yes == (exists|i: int|
            0 <= i && i < set_patterns(*set).len() && #[trigger] glob_matches(
                set_patterns(*set)[i],
                path@,
            )),
{
    set.is_match(path)
}

/// Whether one of the patterns matches `path`.
pub open spec fn any_matches(patterns: Seq<Seq<char>>, path: Seq<char>) -> bool {
    exists|i: int| 0 <= i < patterns.len() && #[trigger] glob_matches(patterns[i], path)
}

/// Whether a pattern is a plain name, without wildcards.
pub open spec fn plain_name(pattern: Seq<char>) -> bool {
    !pattern.contains('*') && !pattern.contains('?') && !pattern.contains('[')
}

/// `pattern` if it is well-formed.
pub open spec fn if_valid(pattern: Seq<char>) -> Seq<Seq<char>> {
    if glob_fault(pattern) is None {
        seq![pattern]
    } else {
        Seq::empty()
    }
}

/// The globs that an exclude pattern stands for: itself, and for a plain name
/// also everything in directories of that name and files of that name anywhere.
pub open spec fn globs_for(pattern: Seq<char>) -> Seq<Seq<char>> {
    if plain_name(pattern) {
        seq![pattern] + if_valid("**/"@ + pattern + "/**"@) + if_valid("**/"@ + pattern)
    } else {
        seq![pattern]
    }
}

/// The globs that a list of exclude patterns stands for.
pub open spec fn all_globs(patterns: Seq<Seq<char>>) -> Seq<Seq<char>>
    decreases patterns.len(),
{
    if patterns.len() == 0 {
        Seq::empty()
    } else {
        all_globs(patterns.drop_last()) + globs_for(patterns.last())
    }
}

/// The failure of an exclude pattern that is malformed.
pub open spec fn bad_glob(pattern: Seq<char>, message: Seq<char>) -> Failure {
    Failure {
        kind: ErrorKind::InvalidGlob,
        text: "invalid exclude glob '"@ + pattern + "': "@ + message,
    }
}

/// The failure of the first malformed pattern, if there is one.
pub open spec fn globs_fault(patterns: Seq<Seq<char>>) -> Option<Failure>
    decreases patterns.len(),
{
    if patterns.len() == 0 {
        None
    } else {
        match globs_fault(patterns.drop_last()) {
            Some(fault) => Some(fault),
            None => match glob_fault(patterns.last()) {
                Some(message) => Some(bad_glob(patterns.last(), message)),
                None => None,
            },
        }
    }
}

/// A malformed pattern stays the first one when more patterns follow.
proof fn first_fault_stays(patterns: Seq<Seq<char>>, n: int)
    requires
        0 <= n <= patterns.len(),
        globs_fault(patterns.take(n)) is Some,
    ensures
        globs_fault(patterns) == globs_fault(patterns.take(n)),
    decreases patterns.len() - n,
{
    if n < patterns.len() {
        assert(patterns.take(n + 1).drop_last() == patterns.take(n));
        first_fault_stays(patterns, n + 1);
    } else {
        assert(patterns.take(n) == patterns);
    }
}

/// Adds `pattern` if it is well-formed.
fn add_if_valid(builder: &mut globset::GlobSetBuilder, pattern: &str)
    ensures
        builder_patterns(*final(builder)) == builder_patterns(*old(builder)) + if_valid(pattern@),
{
    match parse_glob(pattern) {
        Ok(glob) => add_glob(builder, glob),
        Err(_) => {},
    }
    assert(builder_patterns(*builder) == builder_patterns(*old(builder)) + if_valid(pattern@));
}

/// What building a collection made, its message put into an error.
pub fn built(made: Result<globset::GlobSet, String>) -> (r: Result<Option<globset::GlobSet>, Error>)
    ensures
        match made {
            Ok(set) => r == Ok::<Option<globset::GlobSet>, Error>(Some(set)),
            Err(message) => r matches Err(e) && e@ == unbuilt(message@),
        },
{
    match made {
        Ok(set) => Ok(Some(set)),
        Err(message) => Err(
            error(
                ErrorKind::InvalidGlob,
                "building exclude glob set: ".to_owned().concat(message.as_str()),
            ),
        ),
    }
}

/// Build a [`globset::GlobSet`] from exclude patterns. Patterns match against
/// the relative path with forward slashes, and also against the final path
/// component.
pub fn build_exclude_set(patterns: &Vec<String>) -> (r: Result<Option<globset::GlobSet>, Error>)
    ensures
        patterns@.len() == 0 ==> r == Ok::<Option<globset::GlobSet>, Error>(None),
        patterns@.len() > 0 ==> match globs_fault(text::texts(patterns@)) {
            Some(fault) => r matches Err(e) && e@ == fault,
            None => match r {
                Ok(set) => set matches Some(s) && set_patterns(s) == all_globs(
                    text::texts(patterns@),
                ),
                Err(e) => exists|message: Seq<char>| e@ == unbuilt(message),
            },
        },
{
    if patterns.len() == 0 {
        return Ok(None);
    }
    let ghost all = text::texts(patterns@);
    let mut builder: globset::GlobSetBuilder = new_builder();
    let mut i: usize = 0;
    assert(all.take(0) == Seq::<Seq<char>>::empty());
    while i < patterns.len()
        invariant
            i <= patterns@.len(),
            all == text::texts(patterns@),
            globs_fault(all.take(i as int)) is None,
            builder_patterns(builder) == all_globs(all.take(i as int)),
        decreases patterns@.len() - i,
    {
        let p: &str = patterns[i].as_str();
        let ghost before = builder_patterns(builder);
        assert(all.take(i + 1).drop_last() == all.take(i as int));
        match parse_glob(p) {
            Ok(glob) => add_glob(&mut builder, glob),
            Err(message) => {
                proof {
                    first_fault_stays(all, i + 1);
                }
                return Err(
                    error(
                        ErrorKind::InvalidGlob,
                        "invalid exclude glob '".to_owned().concat(p).concat("': ").concat(
                            message.as_str(),
                        ),
                    ),
                );
            },
        }
        if !text::has_char(p, '*') && !text::has_char(p, '?') && !text::has_char(p, '[') {
            add_if_valid(&mut builder, "**/".to_owned().concat(p).concat("/**").as_str());
            add_if_valid(&mut builder, "**/".to_owned().concat(p).as_str());
        }
        assert(builder_patterns(builder) == before + globs_for(p@));
        i = i + 1;
    }
    assert(all.take(i as int) == all);
    built(build_set(&builder))
}

/// The failure of a collection of globs that cannot be compiled.
pub open spec fn unbuilt(message: Seq<char>) -> Failure {
    Failure { kind: ErrorKind::InvalidGlob, text: "building exclude glob set: "@ + message }
}

/// Whether `patterns` exclude a path, as a whole or by its final component.
pub open spec fn excluded_by(patterns: Seq<Seq<char>>, path: Seq<char>) -> bool {
    any_matches(patterns, path) || any_matches(patterns, text::split_on(path, '/').last())
}

/// The patterns of an optional set.
pub open spec fn patterns_in(set: Option<globset::GlobSet>) -> Seq<Seq<char>> {
    match set {
        Some(s) => set_patterns(s),
        None => Seq::empty(),
    }
}

/// Whether a relative path with forward slashes is excluded.
pub fn is_excluded(rel_path: &str, set: &Option<globset::GlobSet>) -> (yes: bool)
    ensures
        yes == excluded_by(patterns_in(*set), rel_path@),
{
    match set {
        None => false,
        Some(set) => {
            if set_matches(set, rel_path) {
                return true;
            }
            let pieces: Vec<String> = text::split_text(rel_path, '/');
            proof {
                text::split_on_has_pieces(rel_path@, '/');
            }
            set_matches(set, pieces[pieces.len() - 1].as_str())
        },
    }
}

/// Nothing is excluded where there are no patterns.
pub proof fn no_patterns_exclude_nothing(path: Seq<char>)
    ensures
        !excluded_by(Seq::empty(), path),
{
}

/// More patterns never bring an excluded path back.
pub proof fn more_patterns_exclude_more(
    patterns: Seq<Seq<char>>,
    more: Seq<Seq<char>>,
    path: Seq<char>,
)
    requires
        excluded_by(patterns, path),
    ensures
        excluded_by(patterns + more, path),
        excluded_by(more + patterns, path),
{
    let name = text::split_on(path, '/').last();
    let p = if any_matches(patterns, path) {
        path
    } else {
        name
    };
    let i = choose|i: int| 0 <= i < patterns.len() && #[trigger] glob_matches(patterns[i], p);
    assert((patterns + more)[i] == patterns[i]);
    assert((more + patterns)[more.len() + i] == patterns[i]);
    assert(glob_matches((patterns + more)[i], p));
    assert(glob_matches((more + patterns)[more.len() + i], p));
}

/// A path is excluded exactly if a pattern matches the whole path or the name
/// behind its last separator.
pub proof fn excluded_by_path_or_name(patterns: Seq<Seq<char>>, dir: Seq<char>, name: Seq<char>)
    requires
        !name.contains('/'),
    ensures
        excluded_by(patterns, dir + "/"@ + name) <==> exists|i: int|
            0 <= i < patterns.len() && (glob_matches(#[trigger] patterns[i], dir + "/"@ + name)
                || glob_matches(patterns[i], name)),
        excluded_by(patterns, name) <==> exists|i: int|
            0 <= i < patterns.len() && #[trigger] glob_matches(patterns[i], name),
{
    let path = dir + "/"@ + name;
    reveal_strlit("/");
    assert("/"@ == seq!['/']);
    text::split_of_appended(dir, '/', name);
    text::split_of_piece(name, '/');
    assert(text::split_on(path, '/').last() == name);
    assert(text::split_on(name, '/').last() == name);
    if any_matches(patterns, path) {
        let i = choose|i: int|
            0 <= i < patterns.len() && #[trigger] glob_matches(patterns[i], path);
        assert(glob_matches(patterns[i], path) || glob_matches(patterns[i], name));
    }
    if any_matches(patterns, name) {
        let i = choose|i: int|
            0 <= i < patterns.len() && #[trigger] glob_matches(patterns[i], name);
        assert(glob_matches(patterns[i], path) || glob_matches(patterns[i], name));
    }
    if exists|i: int|
        0 <= i < patterns.len() && (glob_matches(#[trigger] patterns[i], path) || glob_matches(
            patterns[i],
            name,
        )) {
        let i = choose|i: int|
            0 <= i < patterns.len() && (glob_matches(#[trigger] patterns[i], path)
                || glob_matches(patterns[i], name));
        if glob_matches(patterns[i], name) {
            assert(any_matches(patterns, name));
        } else {
            assert(any_matches(patterns, path));
        }
    }
}

/// If a pattern matches the name of a file, the file is excluded in whatever
/// directory it lies.
pub proof fn matched_name_is_excluded(
    patterns: Seq<Seq<char>>,
    i: int,
    dir: Seq<char>,
    name: Seq<char>,
)
    requires
        0 <= i < patterns.len(),
        glob_matches(patterns[i], name),
        !name.contains('/'),
    ensures
        excluded_by(patterns, dir + "/"@ + name),
        excluded_by(patterns, name),
{
    excluded_by_path_or_name(patterns, dir, name);
    let path = dir + "/"@ + name;
    assert(glob_matches(patterns[i], path) || glob_matches(patterns[i], name));
}

proof fn globs_of_one(patterns: Seq<Seq<char>>, k: int)
    requires
        0 <= k < patterns.len(),
    ensures
        forall|g: Seq<char>| #[trigger]
            globs_for(patterns[k]).contains(g) ==> all_globs(patterns).contains(g),
    decreases patterns.len(),
{
    let init = patterns.drop_last();
    let all = all_globs(patterns);
    let before = all_globs(init);
    let own = globs_for(patterns.last());
    if k < init.len() {
        globs_of_one(init, k);
        assert(init[k] == patterns[k]);
    }
    assert forall|g: Seq<char>| #[trigger] globs_for(patterns[k]).contains(g) implies all.contains(
        g,
    ) by {
        if k < init.len() {
            assert(before.contains(g));
            let i = choose|i: int| 0 <= i < before.len() && before[i] == g;
            assert(all[i] == g);
        } else {
            let i = choose|i: int| 0 <= i < own.len() && own[i] == g;
            assert(all[before.len() + i] == g);
        }
    }
}

proof fn globs_come_from(patterns: Seq<Seq<char>>, g: Seq<char>) -> (k: int)
    requires
        all_globs(patterns).contains(g),
    ensures
        0 <= k < patterns.len(),
        globs_for(patterns[k]).contains(g),
    decreases patterns.len(),
{
    let init = patterns.drop_last();
    let before = all_globs(init);
    let own = globs_for(patterns.last());
    let i = choose|i: int| 0 <= i < all_globs(patterns).len() && all_globs(patterns)[i] == g;
    if i < before.len() {
        assert(before[i] == g);
        globs_come_from(init, g)
    } else {
        assert(own[i - before.len()] == g);
        patterns.len() - 1
    }
}

/// Exclude patterns leave out what one of them matches, and a pattern without
/// wildcards also what lies in a directory of that name or has that name
/// anywhere.
pub proof fn patterns_exclude_what_they_match(
    patterns: Seq<Seq<char>>,
    k: int,
    path: Seq<char>,
)
    requires
        0 <= k < patterns.len(),
        glob_matches(patterns[k], path) || {
            &&& !patterns[k].contains('*') && !patterns[k].contains('?') && !patterns[k].contains(
                '[',
            )
            &&& ({
                ||| glob_fault("**/"@ + patterns[k] + "/**"@) is None && glob_matches(
                    "**/"@ + patterns[k] + "/**"@,
                    path,
                )
                ||| glob_fault("**/"@ + patterns[k]) is None && glob_matches(
                    "**/"@ + patterns[k],
                    path,
                )
            })
        },
    ensures
        excluded_by(all_globs(patterns), path),
{
    let p = patterns[k];
    let inside = "**/"@ + p + "/**"@;
    let named = "**/"@ + p;
    let own = globs_for(p);
    let all = all_globs(patterns);
    globs_of_one(patterns, k);
    let g = if glob_matches(p, path) {
        assert(own[0] == p);
        p
    } else if glob_fault(inside) is None && glob_matches(inside, path) {
        assert(own[1] == inside);
        inside
    } else {
        assert(own[own.len() - 1] == named);
        named
    };
    assert(own.contains(g));
    assert(all.contains(g));
    let i = choose|i: int| 0 <= i < all.len() && all[i] == g;
    assert(glob_matches(all[i], path));
}

/// Nothing else is left out: where a path is, one of the patterns matches it or
/// the name behind its last separator, or is without wildcards and matches with
/// directories around it.
pub proof fn excluded_paths_are_matched(
    patterns: Seq<Seq<char>>,
    dir: Seq<char>,
    name: Seq<char>,
) -> (r: (int, Seq<char>))
    requires
        !name.contains('/'),
        excluded_by(all_globs(patterns), dir + "/"@ + name),
    ensures
        0 <= r.0 < patterns.len(),
        r.1 == dir + "/"@ + name || r.1 == name,
        ({
            let p = patterns[r.0];
            ||| glob_matches(p, r.1)
            ||| {
                &&& !p.contains('*') && !p.contains('?') && !p.contains('[')
                &&& glob_matches("**/"@ + p + "/**"@, r.1) || glob_matches("**/"@ + p, r.1)
            }
        }),
{
    let all = all_globs(patterns);
    let path = dir + "/"@ + name;
    excluded_by_path_or_name(all, dir, name);
    let i = choose|i: int|
        0 <= i < all.len() && (glob_matches(#[trigger] all[i], path) || glob_matches(
            all[i],
            name,
        ));
    assert(all.contains(all[i]));
    let k = globs_come_from(patterns, all[i]);
    let own = globs_for(patterns[k]);
    let m = choose|m: int| 0 <= m < own.len() && own[m] == all[i];
    assert(own[m] == all[i]);
    if glob_matches(all[i], path) {
        (k, path)
    } else {
        (k, name)
    }
}

/// Patterns are refused exactly if one of them is malformed, and the error is
/// that of the first such.
pub proof fn first_malformed_pattern_is_refused(patterns: Seq<Seq<char>>)
    ensures
        globs_fault(patterns) is None <==> forall|i: int|
            0 <= i < patterns.len() ==> glob_fault(#[trigger] patterns[i]) is None,
        forall|k: int, message: Seq<char>|
            0 <= k < patterns.len() && glob_fault(#[trigger] patterns[k]) == Some(message) && (
            forall|j: int| 0 <= j < k ==> glob_fault(#[trigger] patterns[j]) is None)
                ==> globs_fault(patterns) == Some(#[trigger] bad_glob(patterns[k], message)),
    decreases patterns.len(),
{
    if patterns.len() > 0 {
        let init = patterns.drop_last();
        first_malformed_pattern_is_refused(init);
        assert(patterns[patterns.len() - 1] == patterns.last());
        assert forall|i: int| 0 <= i < init.len() implies init[i] == #[trigger] patterns[i] by {}
        if globs_fault(patterns) is None {
            assert forall|i: int| 0 <= i < patterns.len() implies glob_fault(
                #[trigger] patterns[i],
            ) is None by {
                if i < init.len() {
                    assert(glob_fault(init[i]) is None);
                }
            }
        }
        if forall|i: int| 0 <= i < patterns.len() ==> glob_fault(#[trigger] patterns[i]) is None {
            assert forall|i: int| 0 <= i < init.len() implies glob_fault(
                #[trigger] init[i],
            ) is None by {
                assert(glob_fault(patterns[i]) is None);
            }
        }
        assert forall|k: int, message: Seq<char>|
            0 <= k < patterns.len() && glob_fault(#[trigger] patterns[k]) == Some(message) && (
            forall|j: int| 0 <= j < k ==> glob_fault(#[trigger] patterns[j]) is None)
                implies globs_fault(patterns) == Some(#[trigger] bad_glob(patterns[k], message)) by {
            if k < init.len() {
                assert(init[k] == patterns[k]);
                assert forall|j: int| 0 <= j < k implies glob_fault(#[trigger] init[j]) is None by {
                    assert(glob_fault(patterns[j]) is None);
                }
                assert(globs_fault(init) == Some(bad_glob(init[k], message)));
            } else {
                assert forall|j: int| 0 <= j < init.len() implies glob_fault(
                    #[trigger] init[j],
                ) is None by {
                    assert(glob_fault(patterns[j]) is None);
                }
            }
        }
    }
}

} // verus!
