//! Paths: what may be stored in an archive, what may be restored, and the
//! names of outputs.

use vstd::prelude::*;

use crate::error;
use crate::error::{error, plain_error, Error, ErrorKind, Failure};
use crate::text;

verus! {

/// The non-empty components of an archive path.
pub open spec fn components(path: Seq<char>) -> Seq<Seq<char>> {
    text::nonempty(text::split_on(path, '/'))
}

/// `path` without its first `n` components. Nothing is left where it has no
/// more than `n` of them, except that stripping none leaves any path as it is.
pub open spec fn stripped(path: Seq<char>, n: nat) -> Option<Seq<char>> {
    if n == 0 {
        Some(path)
    } else if n >= components(path).len() {
        None
    } else {
        Some(text::joined(components(path).skip(n as int), "/"@))
    }
}

/// The view of an optional string.
pub open spec fn text_view(s: Option<String>) -> Option<Seq<char>> {
    match s {
        Some(t) => Some(t@),
        None => None,
    }
}

/// Strip the first `n` components from an archive path. Returns `None` if the
/// path is entirely stripped.
pub fn strip_path_components(path: &str, n: u32) -> (r: Option<String>)
    ensures
        text_view(r) == stripped(path@, n as nat),
{
    if n == 0 {
        return Some(path.to_owned());
    }
    let parts: Vec<String> = text::nonempty_pieces(path, '/');
    if n as u64 >= parts.len() as u64 {
        return None;
    }
    Some(text::join_from(&parts, n as usize, "/"))
}

/// One component of a path as the operating system sees it.
#[derive(Debug)]
pub enum PathPart {
    /// A name.
    Normal(String),
    /// `.`
    CurDir,
    /// `..`
    ParentDir,
    /// A root or a drive.
    Root,
}

/// The view of a [`PathPart`].
pub enum PartModel {
    Normal(Seq<char>),
    CurDir,
    ParentDir,
    Root,
}

impl View for PathPart {
    type V = PartModel;

    open spec fn view(&self) -> PartModel {
        match self {
            PathPart::Normal(name) => PartModel::Normal(name@),
            PathPart::CurDir => PartModel::CurDir,
            PathPart::ParentDir => PartModel::ParentDir,
            PathPart::Root => PartModel::Root,
        }
    }
}

/// The views of a path.
pub open spec fn parts_view(parts: Seq<PathPart>) -> Seq<PartModel> {
    parts.map_values(|p: PathPart| p@)
}

/// A failure on account of a path.
pub open spec fn path_failure(what: Seq<char>, shown: Seq<char>) -> Failure {
    Failure { kind: ErrorKind::InvalidPath, text: what + shown }
}

/// An error on account of a path.
pub fn path_error(what: &str, shown: &str) -> (e: Error)
    ensures
        e@ == path_failure(what@, shown@),
{
    error(ErrorKind::InvalidPath, what.to_owned().concat(shown))
}

/// Whether a name holds a separator of any system.
pub open spec fn has_separator(name: Seq<char>) -> bool {
    name.contains('/') || name.contains('\\')
}

/// The names in `parts`, or the failure of the first component that an archive
/// cannot hold.
pub open spec fn stored_names(parts: Seq<PartModel>, shown: Seq<char>) -> Result<
    Seq<Seq<char>>,
    Failure,
>
    decreases parts.len(),
{
    if parts.len() == 0 {
        Ok(Seq::empty())
    } else {
        let rest = stored_names(parts.skip(1), shown);
        match parts[0] {
            PartModel::Normal(name) => if has_separator(name) {
                Err(path_failure("invalid path component in "@, shown))
            } else {
                error::after(seq![name], rest)
            },
            PartModel::CurDir => rest,
            PartModel::ParentDir => Err(path_failure("path must not contain '..': "@, shown)),
            PartModel::Root => Err(path_failure("path must be relative: "@, shown)),
        }
    }
}

/// The archive path for a relative path.
pub open spec fn normalized(parts: Seq<PartModel>, shown: Seq<char>) -> Result<
    Seq<char>,
    Failure,
> {
    match stored_names(parts, shown) {
        Err(fault) => Err(fault),
        Ok(names) => if names.len() == 0 {
            Err(Failure { kind: ErrorKind::InvalidPath, text: "empty relative path"@ })
        } else {
            Ok(text::joined(names, "/"@))
        },
    }
}

/// The views of a result that holds text.
pub open spec fn text_result(r: Result<String, Error>) -> Result<Seq<char>, Failure> {
    match r {
        Ok(s) => Ok(s@),
        Err(e) => Err(e@),
    }
}

/// Normalize a relative path for storage in an archive: `/` between the names,
/// no `..`. `shown` is the path as errors show it.
pub fn normalize_archive_path(parts: &Vec<PathPart>, shown: &str) -> (r: Result<String, Error>)
    ensures
        text_result(r) == normalized(parts_view(parts@), shown@),
{
    let ghost all = parts_view(parts@);
    let mut names: Vec<String> = Vec::new();
    let mut i: usize = 0;
    assert(text::texts(names@) == Seq::<Seq<char>>::empty());
    assert(all.skip(0) == all);
    proof {
        let whole = stored_names(all, shown@);
        if whole is Ok {
            assert(Seq::<Seq<char>>::empty() + whole->Ok_0 == whole->Ok_0);
        }
    }
    while i < parts.len()
        invariant
            i <= parts@.len(),
            all == parts_view(parts@),
            error::after(text::texts(names@), stored_names(all.skip(i as int), shown@))
                == stored_names(all, shown@),
        decreases parts@.len() - i,
    {
        let ghost before = text::texts(names@);
        let ghost rest = stored_names(all.skip(i + 1), shown@);
        assert(all.skip(i as int).skip(1) == all.skip(i + 1));
        assert(all.skip(i as int)[0] == parts@[i as int]@);
        match &parts[i] {
            PathPart::Normal(name) => {
                if text::has_char(name.as_str(), '/') || text::has_char(name.as_str(), '\\') {
                    return Err(path_error("invalid path component in ", shown));
                }
                names.push(name.as_str().to_owned());
                assert(text::texts(names@) == before.push(name@));
                proof {
                    if rest is Ok {
                        assert(before + (seq![name@] + rest->Ok_0) == before.push(name@)
                            + rest->Ok_0);
                    }
                }
            },
            PathPart::CurDir => {},
            PathPart::ParentDir => {
                return Err(path_error("path must not contain '..': ", shown));
            },
            PathPart::Root => {
                return Err(path_error("path must be relative: ", shown));
            },
        }
        i = i + 1;
    }
    assert(all.skip(i as int) == Seq::<PartModel>::empty());
    assert(text::texts(names@) + Seq::<Seq<char>>::empty() == text::texts(names@));
    if names.len() == 0 {
        return Err(plain_error(ErrorKind::InvalidPath, "empty relative path"));
    }
    assert(text::texts(names@).skip(0) == text::texts(names@));
    Ok(text::join_from(&names, 0, "/"))
}

/// The components under an output directory that `pieces` lead to, or the
/// failure of the first piece that may not be restored.
pub open spec fn safe_pieces(pieces: Seq<Seq<char>>, path: Seq<char>) -> Result<
    Seq<Seq<char>>,
    Failure,
>
    decreases pieces.len(),
{
    if pieces.len() == 0 {
        Ok(Seq::empty())
    } else {
        let piece = pieces[0];
        let rest = safe_pieces(pieces.skip(1), path);
        if piece.len() == 0 || piece == "."@ {
            rest
        } else if piece == ".."@ {
            Err(path_failure("path traversal rejected: "@, path))
        } else if piece.contains('\\') {
            Err(path_failure("invalid path component: "@, piece))
        } else {
            error::after(seq![piece], rest)
        }
    }
}

/// The components under an output directory that an archive path leads to.
pub open spec fn safe_target(path: Seq<char>) -> Result<Seq<Seq<char>>, Failure> {
    if path.len() == 0 || path[0] == '/' || path[0] == '\\' {
        Err(path_failure("invalid archive path: "@, path))
    } else {
        safe_pieces(text::split_on(path, '/'), path)
    }
}

/// The views of a result that holds a list of strings.
pub open spec fn texts_result(r: Result<Vec<String>, Error>) -> Result<Seq<Seq<char>>, Failure> {
    match r {
        Ok(list) => Ok(text::texts(list@)),
        Err(e) => Err(e@),
    }
}

/// The components under an output directory that an archive path leads to,
/// rejecting traversal.
pub fn safe_components(path: &str) -> (r: Result<Vec<String>, Error>)
    ensures
        texts_result(r) == safe_target(path@),
{
    let chars: Vec<char> = text::chars_of(path);
    if chars.len() == 0 || chars[0] == '/' || chars[0] == '\\' {
        return Err(path_error("invalid archive path: ", path));
    }
    let pieces: Vec<String> = text::split_text(path, '/');
    let ghost all = text::texts(pieces@);
    let mut names: Vec<String> = Vec::new();
    let mut i: usize = 0;
    assert(text::texts(names@) == Seq::<Seq<char>>::empty());
    assert(all.skip(0) == all);
    proof {
        let whole = safe_pieces(all, path@);
        if whole is Ok {
            assert(Seq::<Seq<char>>::empty() + whole->Ok_0 == whole->Ok_0);
        }
    }
    while i < pieces.len()
        invariant
            i <= pieces@.len(),
            all == text::texts(pieces@),
            error::after(text::texts(names@), safe_pieces(all.skip(i as int), path@))
                == safe_pieces(all, path@),
            safe_target(path@) == safe_pieces(all, path@),
        decreases pieces@.len() - i,
    {
        let ghost before = text::texts(names@);
        let ghost rest = safe_pieces(all.skip(i + 1), path@);
        let ghost piece = all[i as int];
        assert(all.skip(i as int).skip(1) == all.skip(i + 1));
        assert(all.skip(i as int)[0] == piece);
        let shown: &str = pieces[i].as_str();
        if !(shown.is_empty() || text::same_text(shown, ".")) {
            if text::same_text(shown, "..") {
                return Err(path_error("path traversal rejected: ", path));
            }
            if text::has_char(shown, '\\') {
                return Err(path_error("invalid path component: ", shown));
            }
            names.push(shown.to_owned());
            assert(text::texts(names@) == before.push(piece));
            proof {
                if rest is Ok {
                    assert(before + (seq![piece] + rest->Ok_0) == before.push(piece)
                        + rest->Ok_0);
                }
            }
        }
        i = i + 1;
    }
    assert(all.skip(i as int) == Seq::<Seq<char>>::empty());
    assert(text::texts(names@) + Seq::<Seq<char>>::empty() == text::texts(names@));
    Ok(names)
}

/// Whether a path leads upwards somewhere: one of its pieces is `..`.
pub open spec fn climbs(path: Seq<char>) -> bool {
    text::split_on(path, '/').contains(".."@)
}

/// Whether a path leads upwards somewhere.
pub fn climbs_up(path: &str) -> (yes: bool)
    ensures
        yes == climbs(path@),
{
    let pieces: Vec<String> = text::split_text(path, '/');
    let ghost all = text::texts(pieces@);
    let mut i: usize = 0;
    while i < pieces.len()
        invariant
            i <= pieces@.len(),
            all == text::texts(pieces@),
            all == text::split_on(path@, '/'),
            forall|k: int| 0 <= k < i ==> all[k] != ".."@,
        decreases pieces@.len() - i,
    {
        if text::same_text(pieces[i].as_str(), "..") {
            assert(all[i as int] == ".."@);
            return true;
        }
        i = i + 1;
    }
    assert(!all.contains(".."@));
    false
}

/// Where a member is restored to: the components under the output directory
/// that its path leads to without its first `n` components, or nothing where no
/// component is left. What is left must be fit to be restored, and the path as
/// a whole must not lead upwards, not even in what is stripped.
pub open spec fn place(path: Seq<char>, n: nat) -> Result<Option<Seq<Seq<char>>>, Failure> {
    match stripped(path, n) {
        Some(rest) if safe_target(rest) is Err => Err(safe_target(rest)->Err_0),
        left => if climbs(path) {
            Err(path_failure("path traversal rejected: "@, path))
        } else {
            match left {
                Some(rest) => Ok(Some(safe_target(rest)->Ok_0)),
                None => Ok(None),
            }
        },
    }
}

/// The views of a result that may hold a list of strings.
pub open spec fn place_result(r: Result<Option<Vec<String>>, Error>) -> Result<
    Option<Seq<Seq<char>>>,
    Failure,
> {
    match r {
        Ok(Some(list)) => Ok(Some(text::texts(list@))),
        Ok(None) => Ok(None),
        Err(e) => Err(e@),
    }
}

/// Where a member is restored to without the first `n` components of its path.
pub fn place_for(path: &str, n: u32) -> (r: Result<Option<Vec<String>>, Error>)
    ensures
        place_result(r) == place(path@, n as nat),
{
    let left: Option<Vec<String>> = match strip_path_components(path, n) {
        None => None,
        Some(rest) => match safe_components(rest.as_str()) {
            Ok(target) => Some(target),
            Err(e) => return Err(e),
        },
    };
    if climbs_up(path) {
        return Err(path_error("path traversal rejected: ", path));
    }
    Ok(left)
}

/// `base` with a separator behind it, unless it is empty or has one.
pub open spec fn with_separator(base: Seq<char>) -> Seq<char> {
    if base.len() == 0 || base.last() == '/' {
        base
    } else {
        base + "/"@
    }
}

/// `base` followed by `names`.
pub open spec fn path_under(base: Seq<char>, names: Seq<Seq<char>>) -> Seq<char>
    decreases names.len(),
{
    if names.len() == 0 {
        base
    } else {
        with_separator(path_under(base, names.drop_last())) + names.last()
    }
}

/// Join `base` with an archive path, rejecting traversal.
pub fn safe_join(base: &str, archive_path: &str) -> (r: Result<String, Error>)
    ensures
        match safe_target(archive_path@) {
            Ok(names) => r matches Ok(path) && path@ == path_under(base@, names),
            Err(fault) => r matches Err(e) && e@ == fault,
        },
{
    let names: Vec<String> = match safe_components(archive_path) {
        Ok(names) => names,
        Err(e) => return Err(e),
    };
    let ghost all = text::texts(names@);
    let mut out: String = base.to_owned();
    let mut i: usize = 0;
    assert(all.take(0) == Seq::<Seq<char>>::empty());
    while i < names.len()
        invariant
            i <= names@.len(),
            all == text::texts(names@),
            out@ == path_under(base@, all.take(i as int)),
        decreases names@.len() - i,
    {
        let chars: Vec<char> = text::chars_of(out.as_str());
        if chars.len() > 0 && chars[chars.len() - 1] != '/' {
            out.append("/");
        }
        out.append(names[i].as_str());
        i = i + 1;
        assert(all.take(i as int).drop_last() == all.take(i - 1));
    }
    assert(all.take(i as int) == all);
    Ok(out)
}

/// Append a suffix to a path.
pub fn append_suffix(path: &str, suffix: &str) -> (out: String)
    ensures
        out@ == path@ + suffix@,
{
    path.to_owned().concat(suffix)
}

/// Where a compressed file goes by default.
pub open spec fn decompressed_path(path: Seq<char>) -> Seq<char> {
    if text::ends_with(path, ".rzst"@) {
        path.take(path.len() - ".rzst"@.len())
    } else {
        path + ".out"@
    }
}

/// Default output path when decompressing: strip `.rzst`, else append `.out`.
pub fn default_decompressed_path(path: &str) -> (out: String)
    ensures
        out@ == decompressed_path(path@),
{
    if text::has_suffix(path, ".rzst") {
        proof {
            reveal_strlit(".rzst");
        }
        let chars: Vec<char> = text::chars_of(path);
        let end: usize = chars.len() - 5;
        assert(chars@.subrange(0, end as int) == path@.take(end as int));
        text::text_between(chars.as_slice(), 0, end)
    } else {
        append_suffix(path, ".out")
    }
}

/// Sidecar path of a seal: `<archive>.sha256`.
pub fn seal_sidecar_path(archive: &str) -> (out: String)
    ensures
        out@ == archive@ + ".sha256"@,
{
    append_suffix(archive, ".sha256")
}

/// Whether a path stands for standard input or output.
pub fn is_stdio_path(path: &str) -> (yes: bool)
    ensures
        yes == (path@ == "-"@),
{
    text::same_text(path, "-")
}

/// Whether a name is proper: not empty, not a dot name, without separators.
pub open spec fn proper_name(name: Seq<char>) -> bool {
    name.len() > 0 && name != "."@ && name != ".."@ && !has_separator(name)
}

/// What is restored lies under the output directory: every component is a
/// proper name, so none of them leads upwards or back to a root.
pub proof fn safe_target_stays_below(path: Seq<char>)
    requires
        safe_target(path) is Ok,
    ensures
        forall|i: int| 0 <= i < safe_target(path)->Ok_0.len() ==> proper_name(
            #[trigger] safe_target(path)->Ok_0[i],
        ),
{
    text::split_pieces_clean(path, '/');
    safe_pieces_proper(text::split_on(path, '/'), path);
}

proof fn safe_pieces_proper(pieces: Seq<Seq<char>>, path: Seq<char>)
    requires
        safe_pieces(pieces, path) is Ok,
        forall|i: int| 0 <= i < pieces.len() ==> !(#[trigger] pieces[i]).contains('/'),
    ensures
        forall|i: int| 0 <= i < safe_pieces(pieces, path)->Ok_0.len() ==> proper_name(
            #[trigger] safe_pieces(pieces, path)->Ok_0[i],
        ),
    decreases pieces.len(),
{
    if pieces.len() > 0 {
        assert forall|i: int| 0 <= i < pieces.skip(1).len() implies !(#[trigger] pieces.skip(
            1,
        )[i]).contains('/') by {
            assert(pieces.skip(1)[i] == pieces[i + 1]);
        }
        safe_pieces_proper(pieces.skip(1), path);
        assert(!pieces[0].contains('/'));
    }
}

/// A piece `..` anywhere in an archive path is rejected.
pub proof fn traversal_is_rejected(path: Seq<char>, i: int)
    requires
        0 <= i < text::split_on(path, '/').len(),
        text::split_on(path, '/')[i] == ".."@,
    ensures
        safe_target(path) is Err,
{
    if safe_target(path) is Ok {
        dots_rejected(text::split_on(path, '/'), path, i);
    }
}

proof fn dots_rejected(pieces: Seq<Seq<char>>, path: Seq<char>, i: int)
    requires
        0 <= i < pieces.len(),
        pieces[i] == ".."@,
    ensures
        safe_pieces(pieces, path) is Err,
    decreases pieces.len(),
{
    reveal_strlit(".");
    reveal_strlit("..");
    if i > 0 {
        assert(pieces.skip(1)[i - 1] == pieces[i]);
        dots_rejected(pieces.skip(1), path, i - 1);
    } else {
        assert(".."@.len() == 2);
        assert("."@.len() == 1);
    }
}

/// Whatever names a pack stores for a file, unpacking restores to the same
/// names: the archive path of proper names leads back to them.
pub proof fn stored_path_is_restored(names: Seq<Seq<char>>)
    requires
        names.len() > 0,
        forall|i: int| 0 <= i < names.len() ==> proper_name(#[trigger] names[i]),
    ensures
        safe_target(text::joined(names, "/"@)) == Ok::<Seq<Seq<char>>, Failure>(names),
{
    reveal_strlit("/");
    let path = text::joined(names, "/"@);
    assert("/"@ == seq!['/']);
    assert forall|i: int| 0 <= i < names.len() implies !(#[trigger] names[i]).contains('/') by {
        assert(proper_name(names[i]));
    }
    text::split_of_joined(names, '/');
    joined_start(names);
    assert(proper_name(names[0]));
    assert(names[0].contains(names[0][0]));
    safe_pieces_of_proper(names, path);
}

/// Proper names joined to a path lead back to themselves, and never upwards.
pub proof fn stored_path_has_place(names: Seq<Seq<char>>)
    requires
        names.len() > 0,
        forall|i: int| 0 <= i < names.len() ==> proper_name(#[trigger] names[i]),
    ensures
        place(text::joined(names, "/"@), 0) == Ok::<Option<Seq<Seq<char>>>, Failure>(Some(names)),
{
    stored_path_is_restored(names);
    reveal_strlit("/");
    assert("/"@ == seq!['/']);
    assert forall|i: int| 0 <= i < names.len() implies !(#[trigger] names[i]).contains('/') by {
        assert(proper_name(names[i]));
    }
    text::split_of_joined(names, '/');
    if climbs(text::joined(names, "/"@)) {
        let i = choose|i: int| 0 <= i < names.len() && names[i] == ".."@;
        assert(proper_name(names[i]));
    }
}

/// A path with a piece `..` has no place, whatever is stripped from it.
pub proof fn climbing_path_has_no_place(path: Seq<char>, i: int, n: nat)
    requires
        0 <= i < text::split_on(path, '/').len(),
        text::split_on(path, '/')[i] == ".."@,
    ensures
        place(path, n) is Err,
{
}

proof fn joined_start(names: Seq<Seq<char>>)
    requires
        names.len() > 0,
        names[0].len() > 0,
    ensures
        text::joined(names, "/"@).len() > 0,
        text::joined(names, "/"@)[0] == names[0][0],
    decreases names.len(),
{
    if names.len() > 1 {
        joined_start(names.drop_last());
    }
}

proof fn safe_pieces_of_proper(names: Seq<Seq<char>>, path: Seq<char>)
    requires
        forall|i: int| 0 <= i < names.len() ==> proper_name(#[trigger] names[i]),
    ensures
        safe_pieces(names, path) == Ok::<Seq<Seq<char>>, Failure>(names),
    decreases names.len(),
{
    if names.len() > 0 {
        assert(proper_name(names[0]));
        assert forall|i: int| 0 <= i < names.skip(1).len() implies proper_name(
            #[trigger] names.skip(1)[i],
        ) by {
            assert(proper_name(names[i + 1]));
        }
        safe_pieces_of_proper(names.skip(1), path);
        assert(seq![names[0]] + names.skip(1) == names);
    } else {
        assert(names == Seq::<Seq<char>>::empty());
    }
}

/// Stripping twice strips the sum.
pub proof fn strip_twice(path: Seq<char>, a: nat, b: nat)
    requires
        stripped(path, a) is Some,
    ensures
        stripped(stripped(path, a)->Some_0, b) == stripped(path, a + b),
{
    if a > 0 && b > 0 {
        reveal_strlit("/");
        assert("/"@ == seq!['/']);
        let parts = components(path);
        let rest = parts.skip(a as int);
        text::split_pieces_clean(path, '/');
        text::nonempty_are_pieces(text::split_on(path, '/'));
        assert forall|i: int| 0 <= i < rest.len() implies !(#[trigger] rest[i]).contains('/')
            && rest[i].len() > 0 by {
            assert(rest[i] == parts[i + a]);
            assert(text::split_on(path, '/').contains(parts[i + a]));
        }
        text::split_of_joined(rest, '/');
        text::nonempty_of_full(rest);
        if a + b <= parts.len() {
            assert(rest.skip(b as int) == parts.skip((a + b) as int));
        }
    }
}

/// The default output of the default compressed name is the name again.
pub proof fn suffix_is_undone(path: Seq<char>)
    ensures
        decompressed_path(path + ".rzst"@) == path,
{
    let compressed = path + ".rzst"@;
    assert(compressed.skip(compressed.len() - ".rzst"@.len()) == ".rzst"@);
    assert(compressed.take(compressed.len() - ".rzst"@.len()) == path);
}

/// The components of names joined to a path are the names.
pub proof fn components_of_joined(names: Seq<Seq<char>>)
    requires
        names.len() > 0,
        forall|i: int|
            0 <= i < names.len() ==> (#[trigger] names[i]).len() > 0 && !names[i].contains('/'),
    ensures
        components(text::joined(names, "/"@)) == names,
{
    reveal_strlit("/");
    assert("/"@ == seq!['/']);
    text::split_of_joined(names, '/');
    text::nonempty_of_full(names);
}

/// Stripping takes away the first components and keeps the others. Nothing is
/// left of a path that has no more components than are stripped.
pub proof fn stripping_drops_the_first(names: Seq<Seq<char>>, n: nat)
    requires
        names.len() > 0,
        forall|i: int|
            0 <= i < names.len() ==> (#[trigger] names[i]).len() > 0 && !names[i].contains('/'),
    ensures
        n < names.len() ==> stripped(text::joined(names, "/"@), n) == Some(
            text::joined(names.skip(n as int), "/"@),
        ),
        n >= names.len() ==> stripped(text::joined(names, "/"@), n) is None,
{
    components_of_joined(names);
    if n == 0 {
        assert(names.skip(0) == names);
    }
}

/// A path of proper names is restored to those of them that are not stripped,
/// if any is left.
pub proof fn place_of_names(names: Seq<Seq<char>>, n: nat)
    requires
        names.len() > 0,
        forall|i: int| 0 <= i < names.len() ==> proper_name(#[trigger] names[i]),
    ensures
        n < names.len() ==> place(text::joined(names, "/"@), n) == Ok::<
            Option<Seq<Seq<char>>>,
            Failure,
        >(Some(names.skip(n as int))),
        n >= names.len() ==> place(text::joined(names, "/"@), n) == Ok::<
            Option<Seq<Seq<char>>>,
            Failure,
        >(None),
{
    let path = text::joined(names, "/"@);
    assert forall|i: int| 0 <= i < names.len() implies (#[trigger] names[i]).len() > 0
        && !names[i].contains('/') by {
        assert(proper_name(names[i]));
    }
    stripping_drops_the_first(names, n);
    stored_path_has_place(names);
    assert(!climbs(path));
    if n < names.len() {
        let rest = names.skip(n as int);
        assert forall|i: int| 0 <= i < rest.len() implies proper_name(#[trigger] rest[i]) by {
            assert(rest[i] == names[i + n]);
        }
        stored_path_is_restored(rest);
    }
}

/// The components of plain names.
pub open spec fn as_parts(names: Seq<Seq<char>>) -> Seq<PartModel> {
    names.map_values(|name: Seq<char>| PartModel::Normal(name))
}

proof fn stored_names_of_names(names: Seq<Seq<char>>, shown: Seq<char>)
    requires
        forall|i: int|
            0 <= i < names.len() ==> !(#[trigger] names[i]).contains('/') && !names[i].contains(
                '\\',
            ),
    ensures
        stored_names(as_parts(names), shown) == Ok::<Seq<Seq<char>>, Failure>(names),
    decreases names.len(),
{
    let parts = as_parts(names);
    if names.len() > 0 {
        let rest = names.skip(1);
        assert forall|i: int| 0 <= i < rest.len() implies !(#[trigger] rest[i]).contains('/')
            && !rest[i].contains('\\') by {
            assert(rest[i] == names[i + 1]);
        }
        stored_names_of_names(rest, shown);
        assert(parts.skip(1) == as_parts(rest));
        assert(!names[0].contains('/'));
        assert(seq![names[0]] + rest == names);
    } else {
        assert(names == Seq::<Seq<char>>::empty());
    }
}

/// Names without separators are stored with a slash between each two.
pub proof fn names_are_stored_joined(names: Seq<Seq<char>>, shown: Seq<char>)
    requires
        names.len() > 0,
        forall|i: int|
            0 <= i < names.len() ==> !(#[trigger] names[i]).contains('/') && !names[i].contains(
                '\\',
            ),
    ensures
        normalized(as_parts(names), shown) == Ok::<Seq<char>, Failure>(text::joined(names, "/"@)),
{
    stored_names_of_names(names, shown);
}

/// Components that lead upwards or to a root cannot be stored.
pub proof fn unsafe_parts_are_not_stored(parts: Seq<PartModel>, shown: Seq<char>, k: int)
    requires
        0 <= k < parts.len(),
        parts[k] is ParentDir || parts[k] is Root,
    ensures
        normalized(parts, shown) is Err,
{
    unsafe_part_fails(parts, shown, k);
}

proof fn unsafe_part_fails(parts: Seq<PartModel>, shown: Seq<char>, k: int)
    requires
        0 <= k < parts.len(),
        parts[k] is ParentDir || parts[k] is Root,
    ensures
        stored_names(parts, shown) is Err,
    decreases parts.len(),
{
    if k > 0 {
        assert(parts.skip(1)[k - 1] == parts[k]);
        unsafe_part_fails(parts.skip(1), shown, k - 1);
    }
}

/// A component for the current directory makes no difference.
pub proof fn current_dir_is_dropped(a: Seq<PartModel>, b: Seq<PartModel>, shown: Seq<char>)
    ensures
        normalized(a + seq![PartModel::CurDir] + b, shown) == normalized(a + b, shown),
{
    current_dir_adds_nothing(a, b, shown);
}

proof fn current_dir_adds_nothing(a: Seq<PartModel>, b: Seq<PartModel>, shown: Seq<char>)
    ensures
        stored_names(a + seq![PartModel::CurDir] + b, shown) == stored_names(a + b, shown),
    decreases a.len(),
{
    let long = a + seq![PartModel::CurDir] + b;
    let short = a + b;
    if a.len() == 0 {
        assert(long.skip(1) == b);
        assert(short == b);
    } else {
        current_dir_adds_nothing(a.skip(1), b, shown);
        assert(long.skip(1) == a.skip(1) + seq![PartModel::CurDir] + b);
        assert(short.skip(1) == a.skip(1) + b);
        assert(long[0] == short[0]);
    }
}

/// Below a directory, names follow its path with a slash in front of each.
pub proof fn path_under_joins(base: Seq<char>, names: Seq<Seq<char>>)
    requires
        base.len() > 0,
        base.last() != '/',
        names.len() > 0,
        forall|i: int| 0 <= i < names.len() ==> proper_name(#[trigger] names[i]),
    ensures
        path_under(base, names) == base + "/"@ + text::joined(names, "/"@),
    decreases names.len(),
{
    let init = names.drop_last();
    reveal_strlit("/");
    assert(proper_name(names[names.len() - 1]));
    if names.len() == 1 {
        assert(init == Seq::<Seq<char>>::empty());
        assert(path_under(base, init) == base);
        assert(names.last() == names[0]);
    } else {
        assert forall|i: int| 0 <= i < init.len() implies proper_name(#[trigger] init[i]) by {
            assert(init[i] == names[i]);
        }
        path_under_joins(base, init);
        let before = path_under(base, init);
        let last = init.last();
        assert(proper_name(init[init.len() - 1]));
        joined_end(init);
        assert(last.contains(last.last()));
        assert(before.last() == last.last());
        assert(before + "/"@ + names.last() == base + "/"@ + (text::joined(init, "/"@) + "/"@
            + names.last()));
    }
}

proof fn joined_end(names: Seq<Seq<char>>)
    requires
        names.len() > 0,
        names.last().len() > 0,
    ensures
        text::joined(names, "/"@).len() > 0,
        text::joined(names, "/"@).last() == names.last().last(),
{
}

/// The default output of a name without the suffix is that name with `.out`
/// behind it.
pub proof fn other_names_get_out(path: Seq<char>)
    requires
        !exists|front: Seq<char>| path == #[trigger] (front + ".rzst"@),
    ensures
        decompressed_path(path) == path + ".out"@,
{
    text::ending_has_front(path, ".rzst"@);
}

/// A name that holds a separator of any system cannot be stored.
pub proof fn separators_are_not_stored(
    parts: Seq<PartModel>,
    shown: Seq<char>,
    k: int,
    name: Seq<char>,
)
    requires
        0 <= k < parts.len(),
        parts[k] == PartModel::Normal(name),
        name.contains('/') || name.contains('\\'),
    ensures
        normalized(parts, shown) is Err,
{
    separator_fails(parts, shown, k, name);
}

proof fn separator_fails(parts: Seq<PartModel>, shown: Seq<char>, k: int, name: Seq<char>)
    requires
        0 <= k < parts.len(),
        parts[k] == PartModel::Normal(name),
        name.contains('/') || name.contains('\\'),
    ensures
        stored_names(parts, shown) is Err,
    decreases parts.len(),
{
    if k > 0 {
        assert(parts.skip(1)[k - 1] == parts[k]);
        separator_fails(parts.skip(1), shown, k - 1, name);
    }
}

/// Nothing is restored from an empty path or one that starts with a separator,
/// and no name that is restored is empty, a dot name or holds a separator.
pub proof fn restored_names_are_plain(path: Seq<char>)
    ensures
        path.len() == 0 || path[0] == '/' || path[0] == '\\' ==> safe_target(path) is Err,
        safe_target(path) matches Ok(names) ==> forall|i: int|
            0 <= i < names.len() ==> {
                let name = #[trigger] names[i];
                &&& name.len() > 0
                &&& name != "."@
                &&& name != ".."@
                &&& !name.contains('/')
                &&& !name.contains('\\')
            },
{
    if safe_target(path) is Ok {
        safe_target_stays_below(path);
        let names = safe_target(path)->Ok_0;
        assert forall|i: int| 0 <= i < names.len() implies {
            let name = #[trigger] names[i];
            &&& name.len() > 0
            &&& name != "."@
            &&& name != ".."@
            &&& !name.contains('/')
            &&& !name.contains('\\')
        } by {
            assert(proper_name(names[i]));
        }
    }
}

/// A name is proper exactly if it is not empty, not a dot name, and holds no
/// separator of any system.
pub proof fn proper_names_have_no_separators(name: Seq<char>)
    ensures
        proper_name(name) <==> name.len() > 0 && name != "."@ && name != ".."@ && !name.contains(
            '/',
        ) && !name.contains('\\'),
{
}

/// The components of a path are what stands between its slashes, without empty
/// pieces.
pub proof fn components_are_full_pieces(path: Seq<char>)
    ensures
        components(path) == text::split_on(path, '/').filter(|p: Seq<char>| p.len() > 0),
{
    text::nonempty_is_a_filter(text::split_on(path, '/'));
}

proof fn safe_pieces_are_filtered(pieces: Seq<Seq<char>>, path: Seq<char>)
    requires
        safe_pieces(pieces, path) is Ok,
    ensures
        safe_pieces(pieces, path)->Ok_0 == pieces.filter(
            |p: Seq<char>| p.len() > 0 && p != "."@,
        ),
    decreases pieces.len(),
{
    let keep = |p: Seq<char>| p.len() > 0 && p != "."@;
    reveal(Seq::filter);
    if pieces.len() > 0 {
        let one = seq![pieces[0]];
        let rest = pieces.skip(1);
        safe_pieces_are_filtered(rest, path);
        assert(one + rest == pieces);
        Seq::filter_distributes_over_add(one, rest, keep);
        assert(one.drop_last() == Seq::<Seq<char>>::empty());
        assert(one.drop_last().filter(keep) == Seq::<Seq<char>>::empty());
        if keep(pieces[0]) {
            assert(one.filter(keep) == one);
        } else {
            assert(one.filter(keep) == Seq::<Seq<char>>::empty());
            assert(Seq::<Seq<char>>::empty() + rest.filter(keep) == rest.filter(keep));
        }
    } else {
        assert(pieces.filter(keep) == Seq::<Seq<char>>::empty());
    }
}

/// What is restored are the pieces of a path without empty ones and single dots,
/// in their order.
pub proof fn restored_names_are_pieces(path: Seq<char>)
    requires
        safe_target(path) is Ok,
    ensures
        safe_target(path)->Ok_0 == text::split_on(path, '/').filter(
            |p: Seq<char>| p.len() > 0 && p != "."@,
        ),
{
    safe_pieces_are_filtered(text::split_on(path, '/'), path);
}

/// A separator is put behind a base only where it has none; no base needs none.
pub proof fn one_separator_is_enough(base: Seq<char>, names: Seq<Seq<char>>)
    requires
        names.len() > 0,
        forall|i: int| 0 <= i < names.len() ==> proper_name(#[trigger] names[i]),
        base.len() == 0 || base.last() == '/',
    ensures
        path_under(base, names) == base + text::joined(names, "/"@),
    decreases names.len(),
{
    let init = names.drop_last();
    reveal_strlit("/");
    assert(proper_name(names[names.len() - 1]));
    if names.len() == 1 {
        assert(init == Seq::<Seq<char>>::empty());
        assert(path_under(base, init) == base);
        assert(names.last() == names[0]);
    } else {
        assert forall|i: int| 0 <= i < init.len() implies proper_name(#[trigger] init[i]) by {
            assert(init[i] == names[i]);
        }
        one_separator_is_enough(base, init);
        let before = path_under(base, init);
        let last = init.last();
        assert(proper_name(init[init.len() - 1]));
        joined_end(init);
        assert(last.contains(last.last()));
        assert(before.last() == last.last());
        assert(before + "/"@ + names.last() == base + (text::joined(init, "/"@) + "/"@
            + names.last()));
    }
}

/// Whatever the path, stripping leaves its components without the first ones,
/// and leaves nothing where there are no more. Stripping none leaves the path.
pub proof fn stripping_leaves_the_rest(path: Seq<char>, n: nat)
    ensures
        n == 0 ==> stripped(path, n) == Some(path),
        n > 0 && n >= components(path).len() ==> stripped(path, n) is None,
        n > 0 && n < components(path).len() ==> (stripped(path, n) matches Some(rest)
            && components(rest) == components(path).skip(n as int)),
{
    if 0 < n < components(path).len() {
        let parts = components(path);
        let rest = parts.skip(n as int);
        text::split_pieces_clean(path, '/');
        text::nonempty_are_pieces(text::split_on(path, '/'));
        assert forall|i: int| 0 <= i < rest.len() implies (#[trigger] rest[i]).len() > 0
            && !rest[i].contains('/') by {
            assert(rest[i] == parts[i + n]);
            assert(text::split_on(path, '/').contains(parts[i + n]));
        }
        components_of_joined(rest);
    }
}

/// A path is restored exactly if it does not lead upwards anywhere, something is
/// left of it, and that is fit to be restored; the place is what is left.
pub proof fn place_is_what_is_left(path: Seq<char>, n: nat, target: Seq<Seq<char>>)
    ensures
        place(path, n) == Ok::<Option<Seq<Seq<char>>>, Failure>(Some(target)) <==> (
        !text::split_on(path, '/').contains(".."@) && (stripped(path, n) matches Some(rest)
            && safe_target(rest) == Ok::<Seq<Seq<char>>, Failure>(target))),
        place(path, n) == Ok::<Option<Seq<Seq<char>>>, Failure>(None) <==> (!text::split_on(
            path,
            '/',
        ).contains(".."@) && stripped(path, n) is None),
{
}

} // verus!
