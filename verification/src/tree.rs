//! Member paths drawn as a directory tree.

use vstd::prelude::*;

use crate::error::{error, Error, ErrorKind, Failure};
use crate::header;
use crate::header::{peek_version, VERSION_V3};
use crate::member::{MemberModel, Purpose};
use crate::order;
use crate::order::add_name;
use crate::pack;
use crate::pack::{inspect_pack, EntryModel, PackInfo};
use crate::packing;
use crate::paths;
use crate::text;

verus! {

/// The first components of those paths that have one.
pub open spec fn heads(lists: Seq<Seq<Seq<char>>>) -> Seq<Seq<char>>
    decreases lists.len(),
{
    if lists.len() == 0 {
        Seq::empty()
    } else if lists.last().len() == 0 {
        heads(lists.drop_last())
    } else {
        heads(lists.drop_last()).push(lists.last()[0])
    }
}

/// The rest of those paths that start with `name`.
pub open spec fn tails(lists: Seq<Seq<Seq<char>>>, name: Seq<char>) -> Seq<Seq<Seq<char>>>
    decreases lists.len(),
{
    if lists.len() == 0 {
        Seq::empty()
    } else {
        let before = tails(lists.drop_last(), name);
        if lists.last().len() > 0 && lists.last()[0] == name {
            before.push(lists.last().skip(1))
        } else {
            before
        }
    }
}

/// The number of components in all paths together.
pub open spec fn weight(lists: Seq<Seq<Seq<char>>>) -> nat
    decreases lists.len(),
{
    if lists.len() == 0 {
        0
    } else {
        weight(lists.drop_last()) + lists.last().len()
    }
}

/// The names at the top of the tree, in order.
pub open spec fn names_at(lists: Seq<Seq<Seq<char>>>) -> Seq<Seq<char>> {
    order::sorted_names(heads(lists))
}

/// A first component is that of a path.
pub proof fn heads_are_first(lists: Seq<Seq<Seq<char>>>)
    ensures
        forall|x: Seq<char>| #[trigger]
            heads(lists).contains(x) <==> exists|k: int|
                0 <= k < lists.len() && (#[trigger] lists[k]).len() > 0 && lists[k][0] == x,
    decreases lists.len(),
{
    if lists.len() > 0 {
        let init = lists.drop_last();
        heads_are_first(init);
        assert forall|x: Seq<char>| #[trigger] heads(lists).contains(x) <==> exists|k: int|
            0 <= k < lists.len() && (#[trigger] lists[k]).len() > 0 && lists[k][0] == x by {
            let last = lists.last();
            assert(last == lists[lists.len() - 1]);
            if heads(lists).contains(x) {
                let i = choose|i: int| 0 <= i < heads(lists).len() && heads(lists)[i] == x;
                if i < heads(init).len() {
                    assert(heads(init)[i] == x);
                    assert(heads(init).contains(x));
                    let k = choose|k: int|
                        0 <= k < init.len() && (#[trigger] init[k]).len() > 0 && init[k][0] == x;
                    assert(lists[k] == init[k]);
                } else {
                    assert(lists[lists.len() - 1][0] == x);
                }
            }
            if exists|k: int|
                0 <= k < lists.len() && (#[trigger] lists[k]).len() > 0 && lists[k][0] == x {
                let k = choose|k: int|
                    0 <= k < lists.len() && (#[trigger] lists[k]).len() > 0 && lists[k][0] == x;
                if k < init.len() {
                    assert(init[k] == lists[k]);
                    assert(heads(init).contains(x));
                    let i = choose|i: int| 0 <= i < heads(init).len() && heads(init)[i] == x;
                    assert(heads(lists)[i] == x);
                } else {
                    assert(heads(lists)[heads(lists).len() - 1] == x);
                }
            }
        }
    } else {
        assert forall|x: Seq<char>| !(#[trigger] heads(lists).contains(x)) by {}
    }
}

/// Below a name there is less than at the top.
pub proof fn tails_are_lighter(lists: Seq<Seq<Seq<char>>>, name: Seq<char>)
    ensures
        weight(tails(lists, name)) <= weight(lists),
        heads(lists).contains(name) ==> weight(tails(lists, name)) < weight(lists),
    decreases lists.len(),
{
    if lists.len() > 0 {
        let init = lists.drop_last();
        tails_are_lighter(init, name);
        let last = lists.last();
        if last.len() > 0 && last[0] == name {
            assert(tails(lists, name).drop_last() == tails(init, name));
        } else if heads(lists).contains(name) {
            let i = choose|i: int| 0 <= i < heads(lists).len() && heads(lists)[i] == name;
            assert(i < heads(init).len());
            assert(heads(init)[i] == name);
        }
    } else {
        assert(!heads(lists).contains(name));
    }
}

/// What stands in front of a name.
pub open spec fn branch(last: bool) -> Seq<char> {
    if last {
        "└── "@
    } else {
        "├── "@
    }
}

/// What stands in front of everything below a name.
pub open spec fn indent(last: bool) -> Seq<char> {
    if last {
        "    "@
    } else {
        "│   "@
    }
}

/// The lines for the names from number `i` on, each followed by the lines for
/// what is below it.
pub open spec fn drawn(lists: Seq<Seq<Seq<char>>>, i: nat, prefix: Seq<char>) -> Seq<Seq<char>>
    decreases weight(lists), names_at(lists).len() - i,
{
    let names = names_at(lists);
    if i >= names.len() {
        Seq::empty()
    } else {
        let name = names[i as int];
        let last = i + 1 == names.len();
        proof {
            name_is_head(lists, i as int);
            tails_are_lighter(lists, name);
        }
        seq![prefix + branch(last) + name] + drawn(tails(lists, name), 0, prefix + indent(last))
            + drawn(lists, i + 1, prefix)
    }
}

/// A name at the top is a first component.
pub proof fn name_is_head(lists: Seq<Seq<Seq<char>>>, i: int)
    requires
        0 <= i < names_at(lists).len(),
    ensures
        heads(lists).contains(names_at(lists)[i]),
{
    order::sorted_names_sorted(heads(lists));
    assert(names_at(lists).contains(names_at(lists)[i]));
}

/// The views of a list of split paths.
pub open spec fn lists_view(lists: Seq<Vec<String>>) -> Seq<Seq<Seq<char>>> {
    lists.map_values(|l: Vec<String>| text::texts(l@))
}

/// The names at the top of the tree, in order.
fn top_names(lists: &Vec<Vec<String>>) -> (names: Vec<String>)
    ensures
        text::texts(names@) == names_at(lists_view(lists@)),
{
    let ghost all = lists_view(lists@);
    let mut names: Vec<String> = Vec::new();
    let mut i: usize = 0;
    assert(all.take(0) == Seq::<Seq<Seq<char>>>::empty());
    assert(text::texts(names@) == order::sorted_names(heads(all.take(0))));
    while i < lists.len()
        invariant
            i <= lists@.len(),
            all == lists_view(lists@),
            text::texts(names@) == order::sorted_names(heads(all.take(i as int))),
        decreases lists@.len() - i,
    {
        assert(all.take(i + 1).drop_last() == all.take(i as int));
        assert(all[i as int] == text::texts(lists@[i as int]@));
        if lists[i].len() > 0 {
            add_name(&mut names, lists[i][0].as_str());
            let ghost before = heads(all.take(i as int));
            assert(heads(all.take(i + 1)).drop_last() == before);
        }
        i = i + 1;
    }
    assert(all.take(i as int) == all);
    names
}

/// The rest of those paths that start with `name`.
fn below(lists: &Vec<Vec<String>>, name: &str) -> (rest: Vec<Vec<String>>)
    ensures
        lists_view(rest@) == tails(lists_view(lists@), name@),
{
    let ghost all = lists_view(lists@);
    let mut rest: Vec<Vec<String>> = Vec::new();
    let mut i: usize = 0;
    assert(all.take(0) == Seq::<Seq<Seq<char>>>::empty());
    assert(lists_view(rest@) == tails(all.take(0), name@));
    while i < lists.len()
        invariant
            i <= lists@.len(),
            all == lists_view(lists@),
            lists_view(rest@) == tails(all.take(i as int), name@),
        decreases lists@.len() - i,
    {
        assert(all.take(i + 1).drop_last() == all.take(i as int));
        assert(all[i as int] == text::texts(lists@[i as int]@));
        if lists[i].len() > 0 && text::same_text(lists[i][0].as_str(), name) {
            let list: &Vec<String> = &lists[i];
            let mut tail: Vec<String> = Vec::new();
            let mut k: usize = 1;
            assert(text::texts(tail@) == text::texts(list@).subrange(1, 1));
            while k < list.len()
                invariant
                    1 <= k <= list@.len(),
                    text::texts(tail@) == text::texts(list@).subrange(1, k as int),
                decreases list@.len() - k,
            {
                let ghost before = text::texts(tail@);
                tail.push(list[k].as_str().to_owned());
                assert(text::texts(tail@) == before.push(text::texts(list@)[k as int]));
                k = k + 1;
                assert(text::texts(tail@) == text::texts(list@).subrange(1, k as int));
            }
            assert(text::texts(tail@) == text::texts(list@).skip(1));
            let ghost before = lists_view(rest@);
            let ghost added = text::texts(tail@);
            rest.push(tail);
            assert(lists_view(rest@) == before.push(added));
        }
        i = i + 1;
    }
    assert(all.take(i as int) == all);
    rest
}

/// Appends the lines of a tree.
fn render(lists: &Vec<Vec<String>>, prefix: &str, lines: &mut Vec<String>)
    ensures
        text::texts(final(lines)@) == text::texts(old(lines)@) + drawn(
            lists_view(lists@),
            0,
            prefix@,
        ),
    decreases weight(lists_view(lists@)),
{
    let ghost all = lists_view(lists@);
    let names: Vec<String> = top_names(lists);
    let ghost start = text::texts(lines@);
    let mut i: usize = 0;
    while i < names.len()
        invariant
            i <= names@.len(),
            all == lists_view(lists@),
            text::texts(names@) == names_at(all),
            text::texts(lines@) + drawn(all, i as nat, prefix@) == start + drawn(all, 0, prefix@),
        decreases names@.len() - i,
    {
        let name: &str = names[i].as_str();
        let last: bool = i + 1 == names.len();
        let stem: &str = if last {
            "└── "
        } else {
            "├── "
        };
        let gap: &str = if last {
            "    "
        } else {
            "│   "
        };
        let ghost before = text::texts(lines@);
        let line: String = prefix.to_owned().concat(stem).concat(name);
        let ghost shown = line@;
        lines.push(line);
        assert(text::texts(lines@) == before.push(shown));
        let inner: Vec<Vec<String>> = below(lists, name);
        let inner_prefix: String = prefix.to_owned().concat(gap);
        let ghost sub = drawn(lists_view(inner@), 0, inner_prefix@);
        proof {
            assert(name@ == names_at(all)[i as int]);
            name_is_head(all, i as int);
            tails_are_lighter(all, name@);
        }
        render(&inner, inner_prefix.as_str(), lines);
        let ghost rest = drawn(all, (i + 1) as nat, prefix@);
        assert(drawn(all, i as nat, prefix@) == seq![shown] + sub + rest);
        assert(before + (seq![shown] + sub + rest) == before.push(shown) + sub + rest);
        i = i + 1;
    }
    assert(text::texts(lines@) + Seq::<Seq<char>>::empty() == text::texts(lines@));
}

/// The components of every path.
pub open spec fn split_paths(paths: Seq<Seq<char>>) -> Seq<Seq<Seq<char>>> {
    paths.map_values(|p: Seq<char>| paths::components(p))
}

/// The tree of a list of paths.
pub open spec fn path_tree(paths: Seq<Seq<char>>) -> Seq<char> {
    text::joined(drawn(split_paths(paths), 0, Seq::empty()), "\n"@)
}

/// Build a tree string of member paths.
pub fn format_path_tree(paths: &Vec<String>) -> (out: String)
    ensures
        out@ == path_tree(text::texts(paths@)),
{
    let ghost all = split_paths(text::texts(paths@));
    let mut lists: Vec<Vec<String>> = Vec::new();
    let mut i: usize = 0;
    while i < paths.len()
        invariant
            i <= paths@.len(),
            all == split_paths(text::texts(paths@)),
            lists_view(lists@) == all.take(i as int),
        decreases paths@.len() - i,
    {
        let ghost before = lists_view(lists@);
        let parts: Vec<String> = text::nonempty_pieces(paths[i].as_str(), '/');
        let ghost added = text::texts(parts@);
        lists.push(parts);
        assert(lists_view(lists@) == before.push(added));
        assert(all[i as int] == added);
        i = i + 1;
        assert(lists_view(lists@) == all.take(i as int));
    }
    assert(all.take(i as int) == all);
    let mut lines: Vec<String> = Vec::new();
    let ghost none = text::texts(lines@);
    let empty: String = String::new();
    assert(empty@ == Seq::<char>::empty());
    render(&lists, empty.as_str(), &mut lines);
    assert(none + drawn(all, 0, Seq::empty()) == drawn(all, 0, Seq::empty()));
    assert(text::texts(lines@).skip(0) == text::texts(lines@));
    text::join_from(&lines, 0, "\n")
}

/// The paths in a listing.
pub open spec fn listed_paths(members: Seq<EntryModel>) -> Seq<Seq<char>> {
    members.map_values(|m: EntryModel| m.path)
}

/// A title line and a tree, which ends with a line break unless it is empty.
pub open spec fn titled_tree(title: Seq<char>, tree: Seq<char>) -> Seq<char> {
    if tree.len() == 0 {
        title + "\n"@
    } else {
        title + "\n"@ + tree + "\n"@
    }
}

/// What drawing the tree of an archive gives.
pub open spec fn drawn_archive(archive: Seq<u8>, path: Seq<char>) -> Result<Seq<char>, Failure> {
    match header::version_of(archive) {
        Err(fault) => Err(fault),
        Ok(version) => if version != VERSION_V3 {
            Err(
                Failure {
                    kind: ErrorKind::UnsupportedVersion,
                    text: "tree requires a v3 pack archive (got version "@ + text::decimal(
                        version as nat,
                    ) + ")"@,
                },
            )
        } else {
            match pack::pack_listing(archive, path) {
                Err(fault) => Err(fault),
                Ok(info) => Ok(titled_tree(path, path_tree(listed_paths(info.members)))),
            }
        },
    }
}

/// The member paths of a pack archive as a directory tree, under the path of
/// the archive.
pub fn archive_tree(archive: &[u8], path: &str) -> (r: Result<String, Error>)
    ensures
        paths::text_result(r) == drawn_archive(archive@, path@),
{
    let version: u8 = match peek_version(archive) {
        Ok(version) => version,
        Err(e) => return Err(e),
    };
    if version != VERSION_V3 {
        return Err(
            error(
                ErrorKind::UnsupportedVersion,
                "tree requires a v3 pack archive (got version ".to_owned().concat(
                    text::decimal_text(version as u64).as_str(),
                ).concat(")"),
            ),
        );
    }
    let info: PackInfo = match inspect_pack(archive, path) {
        Ok(info) => info,
        Err(e) => return Err(e),
    };
    let ghost all = listed_paths(info@.members);
    let mut names: Vec<String> = Vec::new();
    let mut i: usize = 0;
    while i < info.members.len()
        invariant
            i <= info.members@.len(),
            all == listed_paths(pack::entries(info.members@)),
            text::texts(names@) == all.take(i as int),
        decreases info.members@.len() - i,
    {
        let ghost before = text::texts(names@);
        names.push(info.members[i].path.as_str().to_owned());
        assert(text::texts(names@) == before.push(all[i as int]));
        i = i + 1;
        assert(text::texts(names@) == all.take(i as int));
    }
    assert(all.take(i as int) == all);
    let tree: String = format_path_tree(&names);
    let out: String = path.to_owned().concat("\n");
    if tree.as_str().is_empty() {
        Ok(out)
    } else {
        Ok(out.concat(tree.as_str()).concat("\n"))
    }
}

/// Two lists that hold the same paths, in any order and number. Paths without
/// components do not count.
pub open spec fn same_paths(a: Seq<Seq<Seq<char>>>, b: Seq<Seq<Seq<char>>>) -> bool {
    forall|x: Seq<Seq<char>>|
        x.len() > 0 ==> (#[trigger] a.contains(x) <==> #[trigger] b.contains(x))
}

/// The rest of a path that starts with `name` comes from such a path.
proof fn tails_are_rests(lists: Seq<Seq<Seq<char>>>, name: Seq<char>)
    ensures
        forall|x: Seq<Seq<char>>| #[trigger]
            tails(lists, name).contains(x) <==> lists.contains(seq![name] + x),
    decreases lists.len(),
{
    assert forall|x: Seq<Seq<char>>| #[trigger] tails(lists, name).contains(x) <==> lists.contains(
        seq![name] + x,
    ) by {
        tail_is_rest(lists, name, x);
    }
}

proof fn tail_is_rest(lists: Seq<Seq<Seq<char>>>, name: Seq<char>, x: Seq<Seq<char>>)
    ensures
        tails(lists, name).contains(x) <==> lists.contains(seq![name] + x),
    decreases lists.len(),
{
    if lists.len() > 0 {
        let init = lists.drop_last();
        let last = lists.last();
        let before = tails(init, name);
        let all = tails(lists, name);
        let full = seq![name] + x;
        tail_is_rest(init, name, x);
        assert(last == lists[lists.len() - 1]);
        if all.contains(x) {
            let i = choose|i: int| 0 <= i < all.len() && all[i] == x;
            if i < before.len() {
                assert(before[i] == x);
                let k = choose|k: int| 0 <= k < init.len() && init[k] == full;
                assert(lists[k] == full);
            } else {
                assert(last == full);
            }
        }
        if lists.contains(full) {
            let k = choose|k: int| 0 <= k < lists.len() && lists[k] == full;
            if k < init.len() {
                assert(init[k] == full);
                let i = choose|i: int| 0 <= i < before.len() && before[i] == x;
                assert(all[i] == x);
            } else {
                assert(full.skip(1) == x);
                assert(all[all.len() - 1] == x);
            }
        }
    }
}

proof fn drawn_ignores_order(
    a: Seq<Seq<Seq<char>>>,
    b: Seq<Seq<Seq<char>>>,
    i: nat,
    prefix: Seq<char>,
)
    requires
        same_paths(a, b),
    ensures
        drawn(a, i, prefix) == drawn(b, i, prefix),
    decreases weight(a), names_at(a).len() - i,
{
    heads_are_first(a);
    heads_are_first(b);
    assert forall|x: Seq<char>| #[trigger] heads(a).contains(x) <==> heads(b).contains(x) by {
        if heads(a).contains(x) {
            let k = choose|k: int| 0 <= k < a.len() && (#[trigger] a[k]).len() > 0 && a[k][0] == x;
            assert(a.contains(a[k]));
            assert(b.contains(a[k]));
            let m = choose|m: int| 0 <= m < b.len() && b[m] == a[k];
            assert(b[m].len() > 0);
        }
        if heads(b).contains(x) {
            let k = choose|k: int| 0 <= k < b.len() && (#[trigger] b[k]).len() > 0 && b[k][0] == x;
            assert(b.contains(b[k]));
            assert(a.contains(b[k]));
            let m = choose|m: int| 0 <= m < a.len() && a[m] == b[k];
            assert(a[m].len() > 0);
        }
    }
    order::sorted_names_sorted(heads(a));
    order::sorted_names_sorted(heads(b));
    assert forall|x: Seq<char>| #[trigger] names_at(a).contains(x) <==> names_at(b).contains(
        x,
    ) by {
        assert(heads(a).contains(x) <==> heads(b).contains(x));
    }
    order::ascending_unique(names_at(a), names_at(b));
    if i < names_at(a).len() {
        let name = names_at(a)[i as int];
        let last = i + 1 == names_at(a).len();
        name_is_head(a, i as int);
        tails_are_lighter(a, name);
        tails_are_rests(a, name);
        tails_are_rests(b, name);
        assert(same_paths(tails(a, name), tails(b, name))) by {
            assert forall|x: Seq<Seq<char>>| #[trigger] tails(a, name).contains(x) <==> tails(
                b,
                name,
            ).contains(x) by {
                assert(a.contains(seq![name] + x) <==> b.contains(seq![name] + x));
            }
        }
        drawn_ignores_order(tails(a, name), tails(b, name), 0, prefix + indent(last));
        drawn_ignores_order(a, b, i + 1, prefix);
    }
}

/// The tree depends only on which components the paths have, neither on their
/// order nor on how often one is named nor on separators that stand alone.
pub proof fn tree_ignores_order(a: Seq<Seq<char>>, b: Seq<Seq<char>>)
    requires
        same_paths(split_paths(a), split_paths(b)),
    ensures
        path_tree(a) == path_tree(b),
{
    drawn_ignores_order(split_paths(a), split_paths(b), 0, Seq::empty());
}

/// Whether `p` is a directory or a file of the tree: the start of one of the
/// paths, with at least one component.
pub open spec fn in_tree(lists: Seq<Seq<Seq<char>>>, p: Seq<Seq<char>>) -> bool {
    p.len() > 0 && exists|l: Seq<Seq<char>>|
        #[trigger] lists.contains(l) && p.len() <= l.len() && l.take(p.len() as int) == p
}

/// `name` in front of `p`.
pub open spec fn under(name: Seq<char>, p: Seq<Seq<char>>) -> Seq<Seq<char>> {
    seq![name] + p
}

/// What the lines of the tree stand for, from name number `i` on: the paths of
/// the directories and files, in the order of the lines.
pub open spec fn nodes(lists: Seq<Seq<Seq<char>>>, i: nat) -> Seq<Seq<Seq<char>>>
    decreases weight(lists), names_at(lists).len() - i,
{
    let names = names_at(lists);
    if i >= names.len() {
        Seq::empty()
    } else {
        let name = names[i as int];
        proof {
            name_is_head(lists, i as int);
            tails_are_lighter(lists, name);
        }
        seq![seq![name]] + nodes(tails(lists, name), 0).map_values(
            |p: Seq<Seq<char>>| under(name, p),
        ) + nodes(lists, i + 1)
    }
}

/// There is a line for each node.
proof fn a_line_each(lists: Seq<Seq<Seq<char>>>, i: nat, prefix: Seq<char>)
    ensures
        drawn(lists, i, prefix).len() == nodes(lists, i).len(),
    decreases weight(lists), names_at(lists).len() - i,
{
    let names = names_at(lists);
    if i < names.len() {
        let name = names[i as int];
        name_is_head(lists, i as int);
        tails_are_lighter(lists, name);
        a_line_each(tails(lists, name), 0, prefix + indent(i + 1 == names.len()));
        a_line_each(lists, i + 1, prefix);
    }
}

/// What is in a tree starts with a name at its top.
proof fn starts_at_top(lists: Seq<Seq<Seq<char>>>, p: Seq<Seq<char>>) -> (j: int)
    requires
        in_tree(lists, p),
    ensures
        0 <= j < names_at(lists).len(),
        names_at(lists)[j] == p[0],
{
    let l = choose|l: Seq<Seq<char>>|
        #[trigger] lists.contains(l) && p.len() <= l.len() && l.take(p.len() as int) == p;
    let k = choose|k: int| 0 <= k < lists.len() && lists[k] == l;
    assert(l.take(p.len() as int)[0] == l[0]);
    heads_are_first(lists);
    assert(heads(lists).contains(p[0])) by {
        assert(lists[k].len() > 0 && lists[k][0] == p[0]);
    }
    order::sorted_names_sorted(heads(lists));
    assert(names_at(lists).contains(p[0]));
    choose|j: int| 0 <= j < names_at(lists).len() && names_at(lists)[j] == p[0]
}

/// What is in a tree below a name is in the whole tree under that name.
proof fn in_tree_below(lists: Seq<Seq<Seq<char>>>, name: Seq<char>, p: Seq<Seq<char>>)
    requires
        p.len() > 0,
    ensures
        in_tree(tails(lists, name), p) <==> in_tree(lists, under(name, p)),
{
    let full = under(name, p);
    tails_are_rests(lists, name);
    if in_tree(tails(lists, name), p) {
        let l = choose|l: Seq<Seq<char>>|
            #[trigger] tails(lists, name).contains(l) && p.len() <= l.len() && l.take(
                p.len() as int,
            ) == p;
        let whole = seq![name] + l;
        assert(lists.contains(whole));
        assert(whole.take(full.len() as int) == full) by {
            assert forall|k: int| 0 <= k < full.len() implies whole[k] == full[k] by {
                if k > 0 {
                    assert(l.take(p.len() as int)[k - 1] == p[k - 1]);
                }
            }
        }
    }
    if in_tree(lists, full) {
        let whole = choose|l: Seq<Seq<char>>|
            #[trigger] lists.contains(l) && full.len() <= l.len() && l.take(full.len() as int)
                == full;
        let l = whole.skip(1);
        assert(whole[0] == whole.take(full.len() as int)[0]);
        assert(seq![name] + l == whole);
        assert(tails(lists, name).contains(l));
        assert(l.take(p.len() as int) == p) by {
            assert forall|k: int| 0 <= k < p.len() implies l[k] == p[k] by {
                assert(whole.take(full.len() as int)[k + 1] == full[k + 1]);
            }
        }
    }
}

/// Whether `p` is in the tree at or behind name number `i`.
pub open spec fn in_rest(lists: Seq<Seq<Seq<char>>>, i: nat, p: Seq<Seq<char>>) -> bool {
    in_tree(lists, p) && exists|j: int|
        i <= j < names_at(lists).len() && #[trigger] names_at(lists)[j] == p[0]
}

/// The name at the top is in the tree itself.
proof fn name_in_tree(lists: Seq<Seq<Seq<char>>>, i: int)
    requires
        0 <= i < names_at(lists).len(),
    ensures
        in_tree(lists, seq![names_at(lists)[i]]),
{
    let name = names_at(lists)[i];
    name_is_head(lists, i);
    heads_are_first(lists);
    let k = choose|k: int|
        0 <= k < lists.len() && (#[trigger] lists[k]).len() > 0 && lists[k][0] == name;
    assert(lists.contains(lists[k]));
    assert(lists[k].take(1) == seq![name]);
}

/// The nodes are just what is in the tree.
#[verifier::spinoff_prover]
proof fn nodes_are_in_tree(lists: Seq<Seq<Seq<char>>>, i: nat, p: Seq<Seq<char>>)
    ensures
        nodes(lists, i).contains(p) <==> in_rest(lists, i, p),
    decreases weight(lists), names_at(lists).len() - i,
{
    let names = names_at(lists);
    let all = nodes(lists, i);
    if i < names.len() {
        let name = names[i as int];
        name_is_head(lists, i as int);
        tails_are_lighter(lists, name);
        let inner = nodes(tails(lists, name), 0);
        let first = seq![seq![name]];
        let middle = inner.map_values(|q: Seq<Seq<char>>| under(name, q));
        let later = nodes(lists, i + 1);
        assert(all == first + middle + later);
        nodes_are_in_tree(lists, i + 1, p);
        if all.contains(p) {
            let k = choose|k: int| 0 <= k < all.len() && all[k] == p;
            if k < 1 {
                assert(p == seq![name]);
                name_in_tree(lists, i as int);
                assert(names[i as int] == p[0]);
            } else if k < 1 + middle.len() {
                let q = inner[k - 1];
                assert(p == under(name, q));
                assert(inner.contains(q));
                nodes_are_in_tree(tails(lists, name), 0, q);
                in_tree_below(lists, name, q);
                assert(names[i as int] == p[0]);
            } else {
                assert(later[k - 1 - middle.len()] == p);
                assert(later.contains(p));
                let j = choose|j: int| i + 1 <= j < names.len() && #[trigger] names[j] == p[0];
                assert(names[j] == p[0]);
            }
        }
        if in_rest(lists, i, p) {
            let j = choose|j: int| i <= j < names.len() && #[trigger] names[j] == p[0];
            if j > i {
                assert(in_rest(lists, i + 1, p));
                let k = choose|k: int| 0 <= k < later.len() && later[k] == p;
                assert(all[1 + middle.len() + k] == p);
            } else if p.len() == 1 {
                assert(p == seq![name]);
                assert(all[0] == p);
            } else {
                let q = p.skip(1);
                assert(under(name, q) == p);
                in_tree_below(lists, name, q);
                let m = starts_at_top(tails(lists, name), q);
                assert(names_at(tails(lists, name))[m] == q[0]);
                nodes_are_in_tree(tails(lists, name), 0, q);
                let k = choose|k: int| 0 <= k < inner.len() && inner[k] == q;
                assert(middle[k] == p);
                assert(all[1 + k] == p);
            }
        }
    } else {
        assert(!all.contains(p));
    }
}

/// A node of the tree behind name number `i` does not start with it.
proof fn later_starts_later(lists: Seq<Seq<Seq<char>>>, i: nat, p: Seq<Seq<char>>)
    requires
        i < names_at(lists).len(),
        nodes(lists, i + 1).contains(p),
    ensures
        p.len() > 0,
        p[0] != names_at(lists)[i as int],
{
    let names = names_at(lists);
    nodes_are_in_tree(lists, i + 1, p);
    let j = choose|j: int| i + 1 <= j < names.len() && #[trigger] names[j] == p[0];
    order::sorted_names_sorted(heads(lists));
    assert(text::text_before(names[i as int], names[j]));
    order::before_irreflexive(names[j]);
}

/// No node comes twice.
#[verifier::spinoff_prover]
proof fn nodes_are_distinct(lists: Seq<Seq<Seq<char>>>, i: nat)
    ensures
        nodes(lists, i).no_duplicates(),
    decreases weight(lists), names_at(lists).len() - i,
{
    let names = names_at(lists);
    let all = nodes(lists, i);
    if i < names.len() {
        let name = names[i as int];
        name_is_head(lists, i as int);
        tails_are_lighter(lists, name);
        let inner = nodes(tails(lists, name), 0);
        let middle = inner.map_values(|q: Seq<Seq<char>>| under(name, q));
        let later = nodes(lists, i + 1);
        let m = middle.len() as int;
        assert(all == seq![seq![name]] + middle + later);
        nodes_are_distinct(tails(lists, name), 0);
        nodes_are_distinct(lists, i + 1);
        assert forall|x: int| 0 <= x < m implies inner[x].len() > 0 && #[trigger] all[1 + x]
            == under(name, inner[x]) by {
            assert(inner.contains(inner[x]));
            nodes_are_in_tree(tails(lists, name), 0, inner[x]);
        }
        assert forall|x: int| 0 <= x < later.len() implies later[x].len() > 0 && #[trigger] all[1
            + m + x] == later[x] && later[x][0] != name by {
            assert(later.contains(later[x]));
            later_starts_later(lists, i, later[x]);
        }
        assert forall|x: int, y: int| 0 <= x < y < all.len() implies all[x] != all[y] by {
            if x == 0 && y <= m {
                assert(all[1 + (y - 1)] == under(name, inner[y - 1]));
            } else if y <= m {
                assert(all[1 + (x - 1)] == under(name, inner[x - 1]));
                assert(all[1 + (y - 1)] == under(name, inner[y - 1]));
                assert(under(name, inner[x - 1]).skip(1) == inner[x - 1]);
                assert(under(name, inner[y - 1]).skip(1) == inner[y - 1]);
            } else if x <= m {
                assert(all[1 + m + (y - 1 - m)] == later[y - 1 - m]);
                if x > 0 {
                    assert(all[1 + (x - 1)] == under(name, inner[x - 1]));
                }
                assert(all[x][0] == name);
            } else {
                assert(all[1 + m + (x - 1 - m)] == later[x - 1 - m]);
                assert(all[1 + m + (y - 1 - m)] == later[y - 1 - m]);
            }
        }
    }
}

/// The directories and files of a tree.
pub open spec fn shown(paths: Seq<Seq<char>>) -> Set<Seq<Seq<char>>> {
    Set::new(|p: Seq<Seq<char>>| in_tree(split_paths(paths), p))
}

/// The lines of a tree.
pub open spec fn tree_lines(paths: Seq<Seq<char>>) -> Seq<Seq<char>> {
    drawn(split_paths(paths), 0, Seq::empty())
}

/// The tree shows every directory and every file once: it has as many lines as
/// there are different starts of the paths, counted in components.
pub proof fn tree_shows_each_once(paths: Seq<Seq<char>>)
    ensures
        path_tree(paths) == text::joined(tree_lines(paths), "\n"@),
        shown(paths).finite(),
        tree_lines(paths).len() == shown(paths).len(),
{
    let lists = split_paths(paths);
    let all = nodes(lists, 0);
    a_line_each(lists, 0, Seq::empty());
    nodes_are_distinct(lists, 0);
    all.unique_seq_to_set();
    assert(all.to_set() =~= shown(paths)) by {
        assert forall|p: Seq<Seq<char>>| all.contains(p) <==> shown(paths).contains(p) by {
            nodes_are_in_tree(lists, 0, p);
            if in_tree(lists, p) {
                let j = starts_at_top(lists, p);
                assert(names_at(lists)[j] == p[0]);
            }
        }
    }
}

/// Whether no component of the paths holds a line break.
pub open spec fn unbroken(lists: Seq<Seq<Seq<char>>>) -> bool {
    forall|i: int, k: int|
        0 <= i < lists.len() && 0 <= k < lists[i].len() ==> !(#[trigger] lists[i][k]).contains(
            '\n',
        )
}

/// Text made of unbroken texts is unbroken.
proof fn unbroken_sum(a: Seq<char>, b: Seq<char>)
    requires
        !a.contains('\n'),
        !b.contains('\n'),
    ensures
        !(a + b).contains('\n'),
{
    if (a + b).contains('\n') {
        let i = choose|i: int| 0 <= i < (a + b).len() && (a + b)[i] == '\n';
        if i < a.len() {
            assert(a[i] == '\n');
        } else {
            assert(b[i - a.len()] == '\n');
        }
    }
}

/// The rests of unbroken paths are unbroken.
proof fn tails_unbroken(lists: Seq<Seq<Seq<char>>>, name: Seq<char>)
    requires
        unbroken(lists),
    ensures
        unbroken(tails(lists, name)),
{
    let rests = tails(lists, name);
    tails_are_rests(lists, name);
    assert forall|i: int, k: int| 0 <= i < rests.len() && 0 <= k < rests[i].len() implies !(
    #[trigger] rests[i][k]).contains('\n') by {
        assert(rests.contains(rests[i]));
        let full = seq![name] + rests[i];
        assert(lists.contains(full));
        let j = choose|j: int| 0 <= j < lists.len() && lists[j] == full;
        assert(!lists[j][k + 1].contains('\n'));
    }
}

proof fn drawn_unbroken(lists: Seq<Seq<Seq<char>>>, i: nat, prefix: Seq<char>)
    requires
        unbroken(lists),
        !prefix.contains('\n'),
    ensures
        forall|k: int|
            0 <= k < drawn(lists, i, prefix).len() ==> !(#[trigger] drawn(
                lists,
                i,
                prefix,
            )[k]).contains('\n'),
    decreases weight(lists), names_at(lists).len() - i,
{
    let names = names_at(lists);
    if i < names.len() {
        let name = names[i as int];
        let last = i + 1 == names.len();
        name_is_head(lists, i as int);
        tails_are_lighter(lists, name);
        tails_unbroken(lists, name);
        heads_are_first(lists);
        let j = choose|j: int|
            0 <= j < lists.len() && (#[trigger] lists[j]).len() > 0 && lists[j][0] == name;
        assert(!lists[j][0].contains('\n'));
        reveal_strlit("└── ");
        reveal_strlit("├── ");
        reveal_strlit("    ");
        reveal_strlit("│   ");
        unbroken_sum(prefix, branch(last));
        unbroken_sum(prefix + branch(last), name);
        unbroken_sum(prefix, indent(last));
        drawn_unbroken(tails(lists, name), 0, prefix + indent(last));
        drawn_unbroken(lists, i + 1, prefix);
        let inner = drawn(tails(lists, name), 0, prefix + indent(last));
        let later = drawn(lists, i + 1, prefix);
        let all = drawn(lists, i, prefix);
        assert forall|k: int| 0 <= k < all.len() implies !(#[trigger] all[k]).contains('\n') by {
            if k > inner.len() {
                assert(all[k] == later[k - 1 - inner.len()]);
            } else if k > 0 {
                assert(all[k] == inner[k - 1]);
            }
        }
    }
}

/// Where no name holds a line break, the text of a tree falls into its lines; a
/// tree without lines is empty text.
pub proof fn tree_text_has_its_lines(paths: Seq<Seq<char>>)
    requires
        unbroken(split_paths(paths)),
    ensures
        tree_lines(paths).len() > 0 ==> text::split_on(path_tree(paths), '\n') == tree_lines(
            paths,
        ),
        tree_lines(paths).len() == 0 ==> path_tree(paths) == Seq::<char>::empty(),
{
    reveal_strlit("\n");
    assert("\n"@ == seq!['\n']);
    drawn_unbroken(split_paths(paths), 0, Seq::empty());
    if tree_lines(paths).len() > 0 {
        text::split_of_joined(tree_lines(paths), '\n');
    }
}

/// Whether nothing in the directory of `p` comes behind `p`.
pub open spec fn is_last(lists: Seq<Seq<Seq<char>>>, p: Seq<Seq<char>>) -> bool {
    forall|q: Seq<Seq<char>>| #[trigger]
        in_tree(lists, q) && q.len() == p.len() && q.drop_last() == p.drop_last()
            ==> !text::text_before(p.last(), q.last())
}

/// What stands in front of the line of `p`: four characters for each directory
/// above it, the outermost first. A directory that others follow has a bar.
pub open spec fn margin(lists: Seq<Seq<Seq<char>>>, p: Seq<Seq<char>>) -> Seq<char> {
    Seq::new(
        (p.len() - 1) as nat,
        |j: int|
            if is_last(lists, p.take(j + 1)) {
                "    "@
            } else {
                "│   "@
            },
    ).flatten()
}

/// The line of `p`: its margin, its branch and its name.
pub open spec fn node_line(lists: Seq<Seq<Seq<char>>>, p: Seq<Seq<char>>) -> Seq<char> {
    margin(lists, p) + (if is_last(lists, p) {
        "└── "@
    } else {
        "├── "@
    }) + p.last()
}

/// A name at the top is last in the tree exactly if it is the last name there.
proof fn top_is_last(lists: Seq<Seq<Seq<char>>>, i: int)
    requires
        0 <= i < names_at(lists).len(),
    ensures
        is_last(lists, seq![names_at(lists)[i]]) <==> i + 1 == names_at(lists).len(),
{
    let names = names_at(lists);
    let p = seq![names[i]];
    order::sorted_names_sorted(heads(lists));
    if i + 1 == names.len() {
        assert forall|q: Seq<Seq<char>>| #[trigger]
            in_tree(lists, q) && q.len() == p.len() && q.drop_last()
                == p.drop_last() implies !text::text_before(p.last(), q.last()) by {
            let j = starts_at_top(lists, q);
            assert(q.last() == names[j]);
            if text::text_before(names[i], names[j]) {
                if j < i {
                    assert(text::text_before(names[j], names[i]));
                    order::before_transitive(names[i], names[j], names[i]);
                }
                order::before_irreflexive(names[i]);
            }
        }
    } else {
        let q = seq![names[i + 1]];
        name_in_tree(lists, i + 1);
        assert(text::text_before(names[i], names[i + 1]));
        assert(q.drop_last() == p.drop_last());
        assert(in_tree(lists, q));
    }
}

/// What is last below a name is last in the whole tree under that name.
proof fn is_last_below(lists: Seq<Seq<Seq<char>>>, name: Seq<char>, p: Seq<Seq<char>>)
    requires
        p.len() > 0,
    ensures
        is_last(tails(lists, name), p) <==> is_last(lists, under(name, p)),
{
    let inner = tails(lists, name);
    let full = under(name, p);
    assert(full.drop_last() == under(name, p.drop_last()));
    assert(full.last() == p.last());
    if is_last(inner, p) {
        assert forall|r: Seq<Seq<char>>| #[trigger]
            in_tree(lists, r) && r.len() == full.len() && r.drop_last()
                == full.drop_last() implies !text::text_before(full.last(), r.last()) by {
            let q = r.skip(1);
            assert(r[0] == r.drop_last()[0]);
            assert(under(name, q) == r);
            in_tree_below(lists, name, q);
            assert(q.drop_last() == p.drop_last()) by {
                assert(q.drop_last() == r.drop_last().skip(1));
                assert(full.drop_last().skip(1) == p.drop_last());
            }
            assert(in_tree(inner, q));
            assert(q.last() == r.last());
        }
    }
    if is_last(lists, full) {
        assert forall|q: Seq<Seq<char>>| #[trigger]
            in_tree(inner, q) && q.len() == p.len() && q.drop_last()
                == p.drop_last() implies !text::text_before(p.last(), q.last()) by {
            let r = under(name, q);
            in_tree_below(lists, name, q);
            assert(r.drop_last() == under(name, q.drop_last()));
            assert(in_tree(lists, r));
            assert(r.last() == q.last());
        }
    }
}

/// The line of what is below a name, in the whole tree.
proof fn node_line_below(lists: Seq<Seq<Seq<char>>>, i: int, p: Seq<Seq<char>>)
    requires
        p.len() > 0,
        0 <= i < names_at(lists).len(),
    ensures
        node_line(lists, under(names_at(lists)[i], p)) == indent(
            i + 1 == names_at(lists).len(),
        ) + node_line(tails(lists, names_at(lists)[i]), p),
{
    let name = names_at(lists)[i];
    let inner = tails(lists, name);
    let full = under(name, p);
    let gaps = Seq::new(
        (full.len() - 1) as nat,
        |j: int|
            if is_last(lists, full.take(j + 1)) {
                "    "@
            } else {
                "│   "@
            },
    );
    let below = Seq::new(
        (p.len() - 1) as nat,
        |j: int|
            if is_last(inner, p.take(j + 1)) {
                "    "@
            } else {
                "│   "@
            },
    );
    top_is_last(lists, i);
    is_last_below(lists, name, p);
    assert(full.take(1) == seq![name]);
    assert(gaps.first() == indent(i + 1 == names_at(lists).len()));
    assert(gaps.drop_first() == below) by {
        assert forall|j: int| 0 <= j < below.len() implies gaps.drop_first()[j] == below[j] by {
            is_last_below(lists, name, p.take(j + 1));
            assert(full.take(j + 2) == under(name, p.take(j + 1)));
        }
    }
    assert(gaps.flatten() == gaps.first() + below.flatten());
    assert(full.last() == p.last());
    let stem = if is_last(inner, p) {
        "└── "@
    } else {
        "├── "@
    };
    assert(gaps.first() + below.flatten() + stem + p.last() == gaps.first() + (below.flatten()
        + stem + p.last()));
}

#[verifier::spinoff_prover]
proof fn drawn_are_node_lines(lists: Seq<Seq<Seq<char>>>, i: nat, prefix: Seq<char>, k: int)
    requires
        0 <= k < nodes(lists, i).len(),
    ensures
        drawn(lists, i, prefix).len() == nodes(lists, i).len(),
        drawn(lists, i, prefix)[k] == prefix + node_line(lists, nodes(lists, i)[k]),
    decreases weight(lists), names_at(lists).len() - i,
{
    let names = names_at(lists);
    a_line_each(lists, i, prefix);
    if i < names.len() {
        let name = names[i as int];
        let last = i + 1 == names.len();
        name_is_head(lists, i as int);
        tails_are_lighter(lists, name);
        let below = tails(lists, name);
        let inner = nodes(below, 0);
        let middle = inner.map_values(|q: Seq<Seq<char>>| under(name, q));
        let later = nodes(lists, i + 1);
        let sub = drawn(below, 0, prefix + indent(last));
        let rest = drawn(lists, i + 1, prefix);
        let all = nodes(lists, i);
        let lines = drawn(lists, i, prefix);
        a_line_each(below, 0, prefix + indent(last));
        a_line_each(lists, i + 1, prefix);
        assert(all == seq![seq![name]] + middle + later);
        assert(lines == seq![prefix + branch(last) + name] + sub + rest);
        if k == 0 {
            let p = seq![name];
            assert(all[0] == p);
            top_is_last(lists, i as int);
            let gaps = Seq::new(
                (p.len() - 1) as nat,
                |j: int|
                    if is_last(lists, p.take(j + 1)) {
                        "    "@
                    } else {
                        "│   "@
                    },
            );
            assert(gaps == Seq::<Seq<char>>::empty());
            assert(margin(lists, p) == Seq::<char>::empty());
            assert(lines[0] == prefix + branch(last) + name);
            assert(prefix + branch(last) + name == prefix + (Seq::<char>::empty() + branch(last)
                + name));
        } else if k < 1 + middle.len() {
            let q = inner[k - 1];
            assert(inner.contains(q));
            nodes_are_in_tree(below, 0, q);
            drawn_are_node_lines(below, 0, prefix + indent(last), k - 1);
            node_line_below(lists, i as int, q);
            assert(all[k] == under(name, q));
            assert(lines[k] == sub[k - 1]);
            assert(prefix + indent(last) + node_line(below, q) == prefix + (indent(last)
                + node_line(below, q)));
        } else {
            let m = k - 1 - middle.len();
            drawn_are_node_lines(lists, i + 1, prefix, m);
            assert(all[k] == later[m]);
            assert(lines[k] == rest[m]);
        }
    }
}

proof fn flatten_of_fours(list: Seq<Seq<char>>)
    requires
        forall|i: int| 0 <= i < list.len() ==> (#[trigger] list[i]).len() == 4,
    ensures
        list.flatten().len() == 4 * list.len(),
    decreases list.len(),
{
    if list.len() > 0 {
        let rest = list.drop_first();
        assert forall|i: int| 0 <= i < rest.len() implies (#[trigger] rest[i]).len() == 4 by {
            assert(rest[i] == list[i + 1]);
        }
        assert(list[0].len() == 4);
        flatten_of_fours(rest);
    }
}

/// The name of a line starts at the column that is four times the depth.
proof fn name_column(lists: Seq<Seq<Seq<char>>>, p: Seq<Seq<char>>)
    requires
        p.len() > 0,
    ensures
        node_line(lists, p).len() == 4 * p.len() + p.last().len(),
        node_line(lists, p).skip(4 * p.len() as int) == p.last(),
{
    reveal_strlit("└── ");
    reveal_strlit("├── ");
    reveal_strlit("    ");
    reveal_strlit("│   ");
    let gaps = Seq::new(
        (p.len() - 1) as nat,
        |j: int|
            if is_last(lists, p.take(j + 1)) {
                "    "@
            } else {
                "│   "@
            },
    );
    flatten_of_fours(gaps);
    assert(node_line(lists, p).skip(4 * p.len() as int) == p.last());
}

/// Whether path `p` comes before `q`: it is above `q`, or has the smaller name
/// where the two part.
pub open spec fn path_before(p: Seq<Seq<char>>, q: Seq<Seq<char>>) -> bool {
    exists|n: int|
        #![trigger p.take(n)]
        0 <= n <= p.len() && n < q.len() && p.take(n) == q.take(n) && (n == p.len()
            || text::text_before(p[n], q[n]))
}

proof fn before_below(name: Seq<char>, p: Seq<Seq<char>>, q: Seq<Seq<char>>)
    requires
        path_before(p, q),
    ensures
        path_before(under(name, p), under(name, q)),
{
    let n = choose|n: int|
        #![trigger p.take(n)]
        0 <= n <= p.len() && n < q.len() && p.take(n) == q.take(n) && (n == p.len()
            || text::text_before(p[n], q[n]));
    let a = under(name, p);
    let b = under(name, q);
    assert(a.take(n + 1) == under(name, p.take(n)));
    assert(b.take(n + 1) == under(name, q.take(n)));
    if n < p.len() {
        assert(a[n + 1] == p[n] && b[n + 1] == q[n]);
    }
}

#[verifier::spinoff_prover]
proof fn nodes_ascend(lists: Seq<Seq<Seq<char>>>, i: nat)
    ensures
        forall|x: int, y: int|
            0 <= x < y < nodes(lists, i).len() ==> path_before(
                #[trigger] nodes(lists, i)[x],
                #[trigger] nodes(lists, i)[y],
            ),
    decreases weight(lists), names_at(lists).len() - i,
{
    let names = names_at(lists);
    let all = nodes(lists, i);
    if i < names.len() {
        let name = names[i as int];
        name_is_head(lists, i as int);
        tails_are_lighter(lists, name);
        order::sorted_names_sorted(heads(lists));
        let inner = nodes(tails(lists, name), 0);
        let middle = inner.map_values(|q: Seq<Seq<char>>| under(name, q));
        let later = nodes(lists, i + 1);
        let m = middle.len() as int;
        assert(all == seq![seq![name]] + middle + later);
        nodes_ascend(tails(lists, name), 0);
        nodes_ascend(lists, i + 1);
        assert forall|x: int, y: int| 0 <= x < y < all.len() implies path_before(
            #[trigger] all[x],
            #[trigger] all[y],
        ) by {
            let p = all[x];
            let q = all[y];
            if y > m {
                let b = later[y - 1 - m];
                assert(q == b);
                if x > m {
                    assert(p == later[x - 1 - m]);
                } else {
                    assert(later.contains(b));
                    nodes_are_in_tree(lists, i + 1, b);
                    let j = choose|j: int|
                        i + 1 <= j < names.len() && #[trigger] names[j] == b[0];
                    assert(text::text_before(names[i as int], names[j]));
                    if x > 0 {
                        assert(p == under(name, inner[x - 1]));
                    }
                    assert(p[0] == name);
                    assert(p.take(0) == q.take(0));
                }
            } else {
                let b = inner[y - 1];
                assert(q == under(name, b));
                if x == 0 {
                    assert(inner.contains(b));
                    nodes_are_in_tree(tails(lists, name), 0, b);
                    assert(p.take(1) == q.take(1));
                } else {
                    assert(p == under(name, inner[x - 1]));
                    before_below(name, inner[x - 1], b);
                }
            }
        }
    }
}

/// The lines of a tree stand for its directories and files, each once, a
/// directory in front of what is in it and names in order. Each line shows by
/// its margin which of the directories above are followed by others, by its
/// branch whether it is followed itself, and then its name, at a column that is
/// four times its depth.
pub proof fn lines_show_the_nesting(paths: Seq<Seq<char>>) -> (ps: Seq<Seq<Seq<char>>>)
    ensures
        ps.len() == tree_lines(paths).len(),
        forall|p: Seq<Seq<char>>| #[trigger] ps.contains(p) <==> shown(paths).contains(p),
        forall|x: int, y: int|
            0 <= x < y < ps.len() ==> path_before(#[trigger] ps[x], #[trigger] ps[y]),
        forall|k: int|
            0 <= k < ps.len() ==> {
                &&& (#[trigger] tree_lines(paths)[k]) == node_line(split_paths(paths), ps[k])
                &&& tree_lines(paths)[k].len() == 4 * ps[k].len() + ps[k].last().len()
                &&& tree_lines(paths)[k].skip(4 * ps[k].len() as int) == ps[k].last()
            },
{
    let lists = split_paths(paths);
    let ps = nodes(lists, 0);
    let none = Seq::<char>::empty();
    a_line_each(lists, 0, none);
    nodes_ascend(lists, 0);
    assert forall|p: Seq<Seq<char>>| #[trigger] ps.contains(p) <==> shown(paths).contains(p) by {
        nodes_are_in_tree(lists, 0, p);
        if in_tree(lists, p) {
            let j = starts_at_top(lists, p);
            assert(names_at(lists)[j] == p[0]);
        }
    }
    assert forall|k: int| 0 <= k < ps.len() implies {
        &&& (#[trigger] tree_lines(paths)[k]) == node_line(lists, ps[k])
        &&& tree_lines(paths)[k].len() == 4 * ps[k].len() + ps[k].last().len()
        &&& tree_lines(paths)[k].skip(4 * ps[k].len() as int) == ps[k].last()
    } by {
        drawn_are_node_lines(lists, 0, none, k);
        assert(none + node_line(lists, ps[k]) == node_line(lists, ps[k]));
        assert(ps.contains(ps[k]));
        assert(shown(paths).contains(ps[k]));
        name_column(lists, ps[k]);
    }
    ps
}

/// The tree of a pack stands under the path of the archive, and has the paths of
/// all members; every line ends.
pub proof fn archive_tree_has_all_members(
    level: i32,
    members: Seq<MemberModel>,
    path: Seq<char>,
)
    requires
        packing::readable(members, Purpose::List),
    ensures
        ({
            let paths = members.map_values(|m: MemberModel| m.path);
            let shown = drawn_archive(pack::pack_bytes(level, members), path);
            if path_tree(paths).len() == 0 {
                shown == Ok::<Seq<char>, Failure>(path + "\n"@)
            } else {
                shown == Ok::<Seq<char>, Failure>(path + "\n"@ + path_tree(paths) + "\n"@)
            }
        }),
{
    let archive = pack::pack_bytes(level, members);
    let paths = members.map_values(|m: MemberModel| m.path);
    packing::prologue_round_trip(
        level,
        members.len() as u32,
        pack::members_bytes(members),
        Purpose::List,
    );
    assert(archive.take(4) == header::MAGIC@);
    packing::listing_of_packed(level, members, path);
    let info = pack::pack_listing(archive, path)->Ok_0;
    assert(listed_paths(info.members) == paths);
}

/// Only packs have a tree.
pub proof fn single_files_have_no_tree(archive: Seq<u8>, path: Seq<char>)
    requires
        header::version_of(archive) matches Ok(version) && version != VERSION_V3,
    ensures
        drawn_archive(archive, path) matches Err(fault) && fault.kind
            == ErrorKind::UnsupportedVersion,
{
}

} // verus!
