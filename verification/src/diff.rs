//! Comparing two archives by member path and checksum.

use vstd::prelude::*;

use crate::bytes;
use crate::codec;
use crate::codec::{hex_text, sha256, HASH_LEN};
use crate::container;
use crate::container::decompress_reader;
use crate::error::{Error, Failure};
use crate::header;
use crate::header::{peek_version, VERSION_V3};
use crate::inspect;
use crate::inspect::{inspect_file, ArchiveInfo};
use crate::order;
use crate::order::add_name;
use crate::member::{MemberModel, Purpose};
use crate::pack;
use crate::pack::{inspect_pack, EntryModel, PackInfo};
use crate::packing;
use crate::paths;
use crate::text;

verus! {

/// A path and the checksum of what it names.
#[derive(Debug)]
pub struct Sum {
    pub path: String,
    pub checksum: [u8; HASH_LEN],
}

/// The view of a [`Sum`].
#[verifier::ext_equal]
pub struct SumModel {
    pub path: Seq<char>,
    pub checksum: Seq<u8>,
}

impl View for Sum {
    type V = SumModel;

    open spec fn view(&self) -> SumModel {
        SumModel { path: self.path@, checksum: self.checksum@ }
    }
}

/// The views of a list of checksums.
pub open spec fn sums_view(sums: Seq<Sum>) -> Seq<SumModel> {
    sums.map_values(|s: Sum| s@)
}

/// The paths in a list of checksums.
pub open spec fn sum_paths(sums: Seq<SumModel>) -> Seq<Seq<char>> {
    sums.map_values(|s: SumModel| s.path)
}

/// The checksum of `path`: the last one, where the path is named more than
/// once.
pub open spec fn sum_of(sums: Seq<SumModel>, path: Seq<char>) -> Option<Seq<u8>>
    decreases sums.len(),
{
    if sums.len() == 0 {
        None
    } else if sums.last().path == path {
        Some(sums.last().checksum)
    } else {
        sum_of(sums.drop_last(), path)
    }
}

/// The checksums in an archive. A single-file archive holds one file, called
/// `name`; where it has no checksum, its contents are hashed. `path` is the
/// archive as errors show it.
pub open spec fn archive_sums(archive: Seq<u8>, name: Seq<char>, path: Seq<char>) -> Result<
    Seq<SumModel>,
    Failure,
> {
    match header::version_of(archive) {
        Err(fault) => Err(fault),
        Ok(version) => if version == VERSION_V3 {
            match pack::pack_listing(archive, path) {
                Err(fault) => Err(fault),
                Ok(info) => Ok(
                    info.members.map_values(
                        |m: EntryModel| SumModel { path: m.path, checksum: m.checksum },
                    ),
                ),
            }
        } else {
            match inspect::file_listing(archive, archive.len() as u64, path) {
                Err(fault) => Err(fault),
                Ok(info) => match info.header.checksum {
                    Some(checksum) => Ok(seq![SumModel { path: name, checksum }]),
                    None => match container::restored(archive, Seq::empty()) {
                        Err(fault) => Err(fault),
                        Ok(plain) => Ok(
                            seq![SumModel { path: name, checksum: codec::sha256_digest(plain) }],
                        ),
                    },
                },
            }
        },
    }
}

/// The views of a result that holds checksums.
pub open spec fn sums_result(r: Result<Vec<Sum>, Error>) -> Result<Seq<SumModel>, Failure> {
    match r {
        Ok(sums) => Ok(sums_view(sums@)),
        Err(e) => Err(e@),
    }
}

/// Lists path and checksum of everything in an archive.
pub fn archive_checksums(archive: &[u8], name: &str, path: &str) -> (r: Result<Vec<Sum>, Error>)
    ensures
        sums_result(r) == archive_sums(archive@, name@, path@),
        r matches Ok(sums) ==> sums@.len() <= u32::MAX,
{
    let version: u8 = match peek_version(archive) {
        Ok(version) => version,
        Err(e) => return Err(e),
    };
    let mut sums: Vec<Sum> = Vec::new();
    if version == VERSION_V3 {
        let info: PackInfo = match inspect_pack(archive, path) {
            Ok(info) => info,
            Err(e) => return Err(e),
        };
        proof {
            pack::listing_length(archive@, path@);
        }
        let ghost all = info@.members.map_values(
            |m: EntryModel| SumModel { path: m.path, checksum: m.checksum },
        );
        let mut i: usize = 0;
        while i < info.members.len()
            invariant
                i <= info.members@.len(),
                all == pack::entries(info.members@).map_values(
                    |m: EntryModel| SumModel { path: m.path, checksum: m.checksum },
                ),
                sums_view(sums@) == all.take(i as int),
            decreases info.members@.len() - i,
        {
            let ghost before = sums_view(sums@);
            sums.push(
                Sum {
                    path: info.members[i].path.as_str().to_owned(),
                    checksum: info.members[i].checksum,
                },
            );
            assert(sums@.last()@ == all[i as int]);
            assert(sums_view(sums@) == before.push(all[i as int]));
            i = i + 1;
            assert(sums_view(sums@) == all.take(i as int));
        }
        assert(all.take(i as int) == all);
        return Ok(sums);
    }
    let info: ArchiveInfo = match inspect_file(archive, archive.len() as u64, path) {
        Ok(info) => info,
        Err(e) => return Err(e),
    };
    let checksum: [u8; 32] = match info.header.checksum {
        Some(checksum) => checksum,
        None => {
            let mut plain: Vec<u8> = Vec::new();
            let ghost none = plain@;
            match decompress_reader(archive, &mut plain) {
                Ok(_) => {},
                Err(e) => return Err(e),
            }
            assert(none + container::written_by(archive@, Seq::empty()) == container::written_by(
                archive@,
                Seq::empty(),
            ));
            sha256(plain.as_slice())
        },
    };
    sums.push(Sum { path: name.to_owned(), checksum });
    assert(sums_view(sums@) == seq![SumModel { path: name@, checksum: checksum@ }]);
    Ok(sums)
}

/// The checksum of `path`.
fn lookup(sums: &Vec<Sum>, path: &str) -> (r: Option<[u8; HASH_LEN]>)
    ensures
        match r {
            Some(checksum) => sum_of(sums_view(sums@), path@) == Some(checksum@),
            None => sum_of(sums_view(sums@), path@) is None,
        },
{
    let ghost all = sums_view(sums@);
    let mut i: usize = sums.len();
    assert(all.take(i as int) == all);
    while i > 0
        invariant
            i <= sums@.len(),
            all == sums_view(sums@),
            sum_of(all, path@) == sum_of(all.take(i as int), path@),
        decreases i,
    {
        assert(all.take(i as int).last() == sums@[i - 1]@);
        if text::same_text(sums[i - 1].path.as_str(), path) {
            return Some(sums[i - 1].checksum);
        }
        assert(all.take(i as int).drop_last() == all.take(i - 1));
        i = i - 1;
    }
    None
}

/// How a path compares between two archives.
#[derive(Debug, Clone, Copy, PartialEq, Eq, Structural)]
pub enum DiffStatus {
    /// Present only in the first archive.
    OnlyInA,
    /// Present only in the second archive.
    OnlyInB,
    /// In both, with different checksums.
    Changed,
    /// In both, with the same checksum.
    Identical,
}

/// A single path comparison between two archives.
#[derive(Debug)]
pub struct DiffEntry {
    pub path: String,
    pub status: DiffStatus,
    pub checksum_a: Option<String>,
    pub checksum_b: Option<String>,
}

/// The view of a [`DiffEntry`].
#[verifier::ext_equal]
pub struct DiffModel {
    pub path: Seq<char>,
    pub status: DiffStatus,
    pub checksum_a: Option<Seq<char>>,
    pub checksum_b: Option<Seq<char>>,
}

impl View for DiffEntry {
    type V = DiffModel;

    open spec fn view(&self) -> DiffModel {
        DiffModel {
            path: self.path@,
            status: self.status,
            checksum_a: paths::text_view(self.checksum_a),
            checksum_b: paths::text_view(self.checksum_b),
        }
    }
}

/// The views of comparisons.
pub open spec fn diffs_view(list: Seq<DiffEntry>) -> Seq<DiffModel> {
    list.map_values(|d: DiffEntry| d@)
}

/// How two optional checksums compare.
pub open spec fn status_of(a: Option<Seq<u8>>, b: Option<Seq<u8>>) -> DiffStatus {
    match (a, b) {
        (Some(x), Some(y)) => if x == y {
            DiffStatus::Identical
        } else {
            DiffStatus::Changed
        },
        (Some(_), None) => DiffStatus::OnlyInA,
        _ => DiffStatus::OnlyInB,
    }
}

/// A checksum as text.
pub open spec fn shown_sum(sum: Option<Seq<u8>>) -> Option<Seq<char>> {
    match sum {
        Some(x) => Some(codec::hex_of(x)),
        None => None,
    }
}

/// The comparison of one path.
pub open spec fn compared(a: Seq<SumModel>, b: Seq<SumModel>, path: Seq<char>) -> DiffModel {
    DiffModel {
        path,
        status: status_of(sum_of(a, path), sum_of(b, path)),
        checksum_a: shown_sum(sum_of(a, path)),
        checksum_b: shown_sum(sum_of(b, path)),
    }
}

/// All paths of two archives, in order.
pub open spec fn all_paths(a: Seq<SumModel>, b: Seq<SumModel>) -> Seq<Seq<char>> {
    order::sorted_names(sum_paths(a) + sum_paths(b))
}

/// The comparison of all paths, in order.
pub open spec fn comparison(a: Seq<SumModel>, b: Seq<SumModel>) -> Seq<DiffModel> {
    all_paths(a, b).map_values(|path: Seq<char>| compared(a, b, path))
}

/// The number of comparisons with a given outcome.
pub open spec fn count_of(list: Seq<DiffModel>, status: DiffStatus) -> nat
    decreases list.len(),
{
    if list.len() == 0 {
        0
    } else if list.last().status == status {
        count_of(list.drop_last(), status) + 1
    } else {
        count_of(list.drop_last(), status)
    }
}

/// Result of comparing two archives.
#[derive(Debug)]
pub struct DiffResult {
    pub archive_a: String,
    pub archive_b: String,
    pub entries: Vec<DiffEntry>,
    pub only_in_a: u32,
    pub only_in_b: u32,
    pub changed: u32,
    pub identical: u32,
}

/// Whether `d` reports the comparison of two lists of checksums.
pub open spec fn reports(d: DiffResult, a: Seq<SumModel>, b: Seq<SumModel>) -> bool {
    let list = comparison(a, b);
    &&& diffs_view(d.entries@) == list
    &&& d.only_in_a == count_of(list, DiffStatus::OnlyInA)
    &&& d.only_in_b == count_of(list, DiffStatus::OnlyInB)
    &&& d.changed == count_of(list, DiffStatus::Changed)
    &&& d.identical == count_of(list, DiffStatus::Identical)
}

impl DiffResult {
    /// True when both archives have the same members and checksums.
    pub fn is_equal(&self) -> (yes: bool)
        ensures
            yes == shows_no_difference(*self),
            yes == (self.only_in_a == 0 && self.only_in_b == 0 && self.changed == 0),
    {
        self.only_in_a == 0 && self.only_in_b == 0 && self.changed == 0
    }
}

/// Whether the totals of a comparison show no difference.
pub open spec fn shows_no_difference(d: DiffResult) -> bool {
    d.only_in_a == 0 && d.only_in_b == 0 && d.changed == 0
}

/// The names that are also in `list`.
spec fn named_in(names: Seq<Seq<char>>, list: Seq<Seq<char>>) -> Seq<Seq<char>>
    decreases names.len(),
{
    if names.len() == 0 {
        Seq::empty()
    } else if list.contains(names.last()) {
        named_in(names.drop_last(), list).push(names.last())
    } else {
        named_in(names.drop_last(), list)
    }
}

proof fn named_in_sorted(names: Seq<Seq<char>>, list: Seq<Seq<char>>)
    requires
        order::ascending(names),
    ensures
        order::ascending(named_in(names, list)),
        forall|x: Seq<char>| #[trigger]
            named_in(names, list).contains(x) <==> names.contains(x) && list.contains(x),
    decreases names.len(),
{
    let out = named_in(names, list);
    if names.len() > 0 {
        let init = names.drop_last();
        let last = names.last();
        assert(names[names.len() - 1] == last);
        assert(order::ascending(init)) by {
            assert forall|i: int, j: int| 0 <= i < j < init.len() implies text::text_before(
                #[trigger] init[i],
                #[trigger] init[j],
            ) by {
                assert(text::text_before(names[i], names[j]));
            }
        }
        named_in_sorted(init, list);
        let before = named_in(init, list);
        assert forall|i: int, j: int| 0 <= i < j < out.len() implies text::text_before(
            #[trigger] out[i],
            #[trigger] out[j],
        ) by {
            if j < before.len() {
                assert(text::text_before(before[i], before[j]));
            } else {
                assert(before.contains(before[i]));
                assert(init.contains(before[i]));
                let k = choose|k: int| 0 <= k < init.len() && init[k] == before[i];
                assert(text::text_before(names[k], names[names.len() - 1]));
            }
        }
        assert forall|x: Seq<char>| #[trigger] out.contains(x) <==> names.contains(x)
            && list.contains(x) by {
            if out.contains(x) {
                let i = choose|i: int| 0 <= i < out.len() && out[i] == x;
                if i < before.len() {
                    assert(before[i] == x);
                    assert(before.contains(x));
                    let k = choose|k: int| 0 <= k < init.len() && init[k] == x;
                    assert(names[k] == x);
                }
            }
            if names.contains(x) && list.contains(x) {
                let k = choose|k: int| 0 <= k < names.len() && names[k] == x;
                if k < init.len() {
                    assert(init[k] == x);
                    assert(before.contains(x));
                    let i = choose|i: int| 0 <= i < before.len() && before[i] == x;
                    assert(out[i] == x);
                } else {
                    assert(out[out.len() - 1] == x);
                }
            }
        }
    } else {
        assert forall|x: Seq<char>| !(#[trigger] out.contains(x)) by {}
    }
}

proof fn sorted_names_shorter(list: Seq<Seq<char>>)
    ensures
        order::sorted_names(list).len() <= list.len(),
    decreases list.len(),
{
    if list.len() > 0 {
        sorted_names_shorter(list.drop_last());
        with_name_longer(order::sorted_names(list.drop_last()), list.last());
    }
}

proof fn with_name_longer(names: Seq<Seq<char>>, name: Seq<char>)
    ensures
        order::with_name(names, name).len() <= names.len() + 1,
    decreases names.len(),
{
    if names.len() > 0 {
        with_name_longer(names.drop_last(), name);
    }
}

/// No more of the names are in `list` than `list` is long.
proof fn named_in_bound(names: Seq<Seq<char>>, list: Seq<Seq<char>>)
    requires
        order::ascending(names),
        forall|x: Seq<char>| #[trigger] list.contains(x) ==> names.contains(x),
    ensures
        named_in(names, list).len() <= list.len(),
{
    named_in_sorted(names, list);
    order::sorted_names_sorted(list);
    assert forall|x: Seq<char>| #[trigger]
        named_in(names, list).contains(x) <==> order::sorted_names(list).contains(x) by {
        if list.contains(x) {
            assert(names.contains(x));
        }
    }
    order::ascending_unique(named_in(names, list), order::sorted_names(list));
    sorted_names_shorter(list);
}

proof fn named_in_prefix(names: Seq<Seq<char>>, list: Seq<Seq<char>>, n: int)
    requires
        0 <= n <= names.len(),
    ensures
        named_in(names.take(n), list).len() <= named_in(names, list).len(),
    decreases names.len(),
{
    if n < names.len() {
        named_in_prefix(names.drop_last(), list, n);
        assert(names.drop_last().take(n) == names.take(n));
    } else {
        assert(names.take(n) == names);
    }
}

/// A path has a checksum exactly if it is named.
pub proof fn summed_iff_named(sums: Seq<SumModel>, path: Seq<char>)
    ensures
        sum_of(sums, path) is Some <==> sum_paths(sums).contains(path),
    decreases sums.len(),
{
    if sums.len() > 0 {
        let init = sums.drop_last();
        summed_iff_named(init, path);
        let all = sum_paths(sums);
        assert(all[sums.len() - 1] == sums.last().path);
        if all.contains(path) && sums.last().path != path {
            let k = choose|k: int| 0 <= k < all.len() && all[k] == path;
            assert(sum_paths(init)[k] == path);
        }
        if sum_paths(init).contains(path) {
            let k = choose|k: int| 0 <= k < init.len() && sum_paths(init)[k] == path;
            assert(all[k] == path);
        }
    }
}

proof fn all_paths_hold_both(a: Seq<SumModel>, b: Seq<SumModel>)
    ensures
        order::ascending(all_paths(a, b)),
        forall|x: Seq<char>| #[trigger]
            all_paths(a, b).contains(x) <==> sum_paths(a).contains(x) || sum_paths(b).contains(x),
{
    let list = sum_paths(a) + sum_paths(b);
    order::sorted_names_sorted(list);
    assert forall|x: Seq<char>| #[trigger] all_paths(a, b).contains(x) <==> sum_paths(a).contains(x)
        || sum_paths(b).contains(x) by {
        if sum_paths(a).contains(x) {
            let k = choose|k: int| 0 <= k < sum_paths(a).len() && sum_paths(a)[k] == x;
            assert(list[k] == x);
        }
        if sum_paths(b).contains(x) {
            let k = choose|k: int| 0 <= k < sum_paths(b).len() && sum_paths(b)[k] == x;
            assert(list[sum_paths(a).len() + k] == x);
        }
        if list.contains(x) {
            let k = choose|k: int| 0 <= k < list.len() && list[k] == x;
            if k < sum_paths(a).len() {
                assert(sum_paths(a)[k] == x);
            } else {
                assert(sum_paths(b)[k - sum_paths(a).len()] == x);
            }
        }
    }
}

/// A checksum as text.
fn sum_text(sum: &Option<[u8; HASH_LEN]>) -> (out: Option<String>)
    ensures
        paths::text_view(out) == shown_sum(
            match sum {
                Some(x) => Some(x@),
                None => None,
            },
        ),
{
    match sum {
        Some(x) => Some(hex_text(x.as_slice())),
        None => None,
    }
}

/// Adds the paths in `sums` to `names`.
fn add_paths(names: &mut Vec<String>, sums: &Vec<Sum>, Ghost(before): Ghost<Seq<Seq<char>>>)
    requires
        text::texts(old(names)@) == order::sorted_names(before),
    ensures
        text::texts(final(names)@) == order::sorted_names(before + sum_paths(sums_view(sums@))),
{
    let ghost all = sum_paths(sums_view(sums@));
    let mut i: usize = 0;
    assert(before + all.take(0) == before);
    while i < sums.len()
        invariant
            i <= sums@.len(),
            all == sum_paths(sums_view(sums@)),
            text::texts(names@) == order::sorted_names(before + all.take(i as int)),
        decreases sums@.len() - i,
    {
        add_name(names, sums[i].path.as_str());
        i = i + 1;
        assert((before + all.take(i as int)).drop_last() == before + all.take(i - 1));
        assert((before + all.take(i as int)).last() == all[i - 1]);
    }
    assert(all.take(i as int) == all);
}

/// Compares two lists of checksums. The archives' names are kept for reports.
pub fn diff_sums(a: &Vec<Sum>, b: &Vec<Sum>, archive_a: &str, archive_b: &str) -> (d: DiffResult)
    requires
        a@.len() <= u32::MAX,
        b@.len() <= u32::MAX,
    ensures
        reports(d, sums_view(a@), sums_view(b@)),
        d.archive_a@ == archive_a@,
        d.archive_b@ == archive_b@,
{
    let ghost sa = sums_view(a@);
    let ghost sb = sums_view(b@);
    let ghost names_a = sum_paths(sa);
    let ghost names_b = sum_paths(sb);
    let mut names: Vec<String> = Vec::new();
    assert(text::texts(names@) == order::sorted_names(Seq::<Seq<char>>::empty()));
    assert(Seq::<Seq<char>>::empty() + names_a == names_a);
    add_paths(&mut names, a, Ghost(Seq::empty()));
    add_paths(&mut names, b, Ghost(names_a));
    let ghost all = all_paths(sa, sb);
    assert(text::texts(names@) == all);
    proof {
        all_paths_hold_both(sa, sb);
        named_in_bound(all, names_a);
        named_in_bound(all, names_b);
    }
    let ghost list = comparison(sa, sb);
    let mut entries: Vec<DiffEntry> = Vec::new();
    let mut only_in_a: u32 = 0;
    let mut only_in_b: u32 = 0;
    let mut changed: u32 = 0;
    let mut identical: u32 = 0;
    let mut i: usize = 0;
    assert(list.take(0) == Seq::<DiffModel>::empty());
    assert(diffs_view(entries@) == list.take(0));
    while i < names.len()
        invariant
            i <= names@.len(),
            sa == sums_view(a@),
            sb == sums_view(b@),
            names_a == sum_paths(sa),
            names_b == sum_paths(sb),
            all == text::texts(names@),
            list == all.map_values(|path: Seq<char>| compared(sa, sb, path)),
            diffs_view(entries@) == list.take(i as int),
            only_in_a == count_of(list.take(i as int), DiffStatus::OnlyInA),
            only_in_b == count_of(list.take(i as int), DiffStatus::OnlyInB),
            changed == count_of(list.take(i as int), DiffStatus::Changed),
            identical == count_of(list.take(i as int), DiffStatus::Identical),
            only_in_a + changed + identical == named_in(all.take(i as int), names_a).len(),
            only_in_b <= named_in(all.take(i as int), names_b).len(),
            named_in(all, names_a).len() <= u32::MAX,
            named_in(all, names_b).len() <= u32::MAX,
            forall|x: Seq<char>| #[trigger]
                all.contains(x) <==> names_a.contains(x) || names_b.contains(x),
        decreases names@.len() - i,
    {
        let path: &str = names[i].as_str();
        let x: Option<[u8; 32]> = lookup(a, path);
        let y: Option<[u8; 32]> = lookup(b, path);
        proof {
            assert(all[i as int] == path@);
            assert(all.contains(path@));
            summed_iff_named(sa, path@);
            summed_iff_named(sb, path@);
            assert(all.take(i + 1).drop_last() == all.take(i as int));
            assert(all.take(i + 1).last() == path@);
            named_in_prefix(all, names_a, i + 1);
            named_in_prefix(all, names_b, i + 1);
            assert(list.take(i + 1).drop_last() == list.take(i as int));
            assert(list.take(i + 1).last() == compared(sa, sb, path@));
        }
        let status: DiffStatus = match (&x, &y) {
            (Some(p), Some(q)) => {
                if bytes::same_bytes(p.as_slice(), q.as_slice()) {
                    identical = identical + 1;
                    DiffStatus::Identical
                } else {
                    changed = changed + 1;
                    DiffStatus::Changed
                }
            },
            (Some(_), None) => {
                only_in_a = only_in_a + 1;
                DiffStatus::OnlyInA
            },
            _ => {
                only_in_b = only_in_b + 1;
                DiffStatus::OnlyInB
            },
        };
        let ghost before = diffs_view(entries@);
        entries.push(
            DiffEntry {
                path: path.to_owned(),
                status,
                checksum_a: sum_text(&x),
                checksum_b: sum_text(&y),
            },
        );
        assert(entries@.last()@ == compared(sa, sb, path@));
        assert(diffs_view(entries@) == before.push(compared(sa, sb, path@)));
        i = i + 1;
        assert(diffs_view(entries@) == list.take(i as int));
    }
    assert(list.take(i as int) == list);
    DiffResult {
        archive_a: archive_a.to_owned(),
        archive_b: archive_b.to_owned(),
        entries,
        only_in_a,
        only_in_b,
        changed,
        identical,
    }
}

/// An archive with the names that stand for it.
pub struct Named<'a> {
    pub data: &'a [u8],
    /// What its contents are called if it is a single-file archive.
    pub name: &'a str,
    /// The archive as errors and reports show it.
    pub path: &'a str,
}

/// Compare two archives by member path and checksum, or by the single-file
/// hash.
pub fn diff_archives(a: &Named, b: &Named) -> (r: Result<DiffResult, Error>)
    ensures
        match archive_sums(a.data@, a.name@, a.path@) {
            Err(fault) => r matches Err(e) && e@ == fault,
            Ok(sa) => match archive_sums(b.data@, b.name@, b.path@) {
                Err(fault) => r matches Err(e) && e@ == fault,
                Ok(sb) => r matches Ok(d) && reports(d, sa, sb) && d.archive_a@ == a.path@
                    && d.archive_b@ == b.path@,
            },
        },
{
    let sums_a: Vec<Sum> = match archive_checksums(a.data, a.name, a.path) {
        Ok(sums) => sums,
        Err(e) => return Err(e),
    };
    let sums_b: Vec<Sum> = match archive_checksums(b.data, b.name, b.path) {
        Ok(sums) => sums,
        Err(e) => return Err(e),
    };
    Ok(diff_sums(&sums_a, &sums_b, a.path, b.path))
}

/// Whether a list of comparisons shows no difference.
pub open spec fn no_difference(list: Seq<DiffModel>) -> bool {
    count_of(list, DiffStatus::OnlyInA) == 0 && count_of(list, DiffStatus::OnlyInB) == 0
        && count_of(list, DiffStatus::Changed) == 0
}

proof fn count_zero(list: Seq<DiffModel>, status: DiffStatus)
    ensures
        count_of(list, status) == 0 <==> forall|i: int|
            0 <= i < list.len() ==> (#[trigger] list[i]).status != status,
    decreases list.len(),
{
    if list.len() > 0 {
        let init = list.drop_last();
        count_zero(init, status);
        assert(list[list.len() - 1] == list.last());
        if count_of(list, status) == 0 {
            assert forall|i: int| 0 <= i < list.len() implies (#[trigger] list[i]).status
                != status by {
                if i < init.len() {
                    assert(init[i] == list[i]);
                }
            }
        }
        if forall|i: int| 0 <= i < list.len() ==> (#[trigger] list[i]).status != status {
            assert forall|i: int| 0 <= i < init.len() implies (#[trigger] init[i]).status
                != status by {
                assert(init[i] == list[i]);
            }
        }
    }
}

/// No difference is shown exactly if every path has the same checksum, or none,
/// in both archives.
pub proof fn equal_means_same_sums(a: Seq<SumModel>, b: Seq<SumModel>)
    ensures
        no_difference(comparison(a, b)) <==> forall|path: Seq<char>| #[trigger]
            sum_of(a, path) == sum_of(b, path),
{
    let list = comparison(a, b);
    let all = all_paths(a, b);
    all_paths_hold_both(a, b);
    count_zero(list, DiffStatus::OnlyInA);
    count_zero(list, DiffStatus::OnlyInB);
    count_zero(list, DiffStatus::Changed);
    if no_difference(list) {
        assert forall|path: Seq<char>| #[trigger] sum_of(a, path) == sum_of(b, path) by {
            summed_iff_named(a, path);
            summed_iff_named(b, path);
            if all.contains(path) {
                let i = choose|i: int| 0 <= i < all.len() && all[i] == path;
                assert(list[i] == compared(a, b, path));
            }
        }
    }
    if forall|path: Seq<char>| #[trigger] sum_of(a, path) == sum_of(b, path) {
        assert forall|i: int| 0 <= i < list.len() implies (#[trigger] list[i]).status
            == DiffStatus::Identical by {
            let path = all[i];
            assert(all.contains(path));
            assert(list[i] == compared(a, b, path));
            summed_iff_named(a, path);
            summed_iff_named(b, path);
            assert(sum_of(a, path) == sum_of(b, path));
        }
    }
}

/// An archive does not differ from itself.
pub proof fn no_difference_from_itself(a: Seq<SumModel>)
    ensures
        no_difference(comparison(a, a)),
{
    equal_means_same_sums(a, a);
}

/// Comparing the other way round shows the same paths, with the sides swapped.
pub proof fn swapped_comparison(a: Seq<SumModel>, b: Seq<SumModel>, path: Seq<char>)
    ensures
        all_paths(a, b) == all_paths(b, a),
        all_paths(a, b).contains(path) ==> {
            let there = compared(a, b, path);
            let back = compared(b, a, path);
            &&& back.checksum_a == there.checksum_b
            &&& back.checksum_b == there.checksum_a
            &&& (there.status == DiffStatus::OnlyInA <==> back.status == DiffStatus::OnlyInB)
            &&& (there.status == DiffStatus::Changed <==> back.status == DiffStatus::Changed)
            &&& (there.status == DiffStatus::Identical <==> back.status == DiffStatus::Identical)
        },
{
    all_paths_hold_both(a, b);
    all_paths_hold_both(b, a);
    order::ascending_unique(all_paths(a, b), all_paths(b, a));
    summed_iff_named(a, path);
    summed_iff_named(b, path);
}

/// Whether number `k` is the last in the list that names `path`.
pub open spec fn last_named(sums: Seq<SumModel>, k: int, path: Seq<char>) -> bool {
    0 <= k < sums.len() && sums[k].path == path && forall|j: int|
        k < j < sums.len() ==> (#[trigger] sums[j]).path != path
}

/// The checksum that counts is the last one.
pub proof fn last_sum_counts(sums: Seq<SumModel>, k: int, path: Seq<char>)
    requires
        last_named(sums, k, path),
    ensures
        sum_of(sums, path) == Some(sums[k].checksum),
    decreases sums.len(),
{
    assert(sums[sums.len() - 1] == sums.last());
    if k < sums.len() - 1 {
        let init = sums.drop_last();
        assert forall|j: int| k < j < init.len() implies (#[trigger] init[j]).path != path by {
            assert(init[j] == sums[j]);
        }
        last_sum_counts(init, k, path);
    }
}

/// What a comparison says of a path follows from where the path is named: only
/// in the first list, only in the second, or in both with the same or with
/// different checksums. It shows the checksums of the sides that name it.
pub proof fn entries_tell_the_sides(d: DiffResult, a: Seq<SumModel>, b: Seq<SumModel>, i: int)
    requires
        reports(d, a, b),
        0 <= i < d.entries@.len(),
    ensures
        ({
            let e = d.entries@[i];
            let in_a = sum_paths(a).contains(e.path@);
            let in_b = sum_paths(b).contains(e.path@);
            &&& in_a || in_b
            &&& e.status == DiffStatus::OnlyInA <==> in_a && !in_b
            &&& e.status == DiffStatus::OnlyInB <==> !in_a && in_b
            &&& forall|x: int, y: int|
                #![trigger a[x], b[y]]
                last_named(a, x, e.path@) && last_named(b, y, e.path@) ==> {
                    &&& e.status == DiffStatus::Changed <==> a[x].checksum != b[y].checksum
                    &&& e.status == DiffStatus::Identical <==> a[x].checksum == b[y].checksum
                }
            &&& e.checksum_a is Some <==> in_a
            &&& e.checksum_b is Some <==> in_b
            &&& forall|x: int|
                #![trigger a[x]]
                last_named(a, x, e.path@) ==> paths::text_view(e.checksum_a) == Some(
                    codec::hex_of(a[x].checksum),
                )
            &&& forall|y: int|
                #![trigger b[y]]
                last_named(b, y, e.path@) ==> paths::text_view(e.checksum_b) == Some(
                    codec::hex_of(b[y].checksum),
                )
        }),
{
    let e = d.entries@[i];
    let path = all_paths(a, b)[i];
    all_paths_hold_both(a, b);
    assert(all_paths(a, b).contains(path));
    assert(diffs_view(d.entries@)[i] == e@);
    assert(e@ == compared(a, b, path));
    summed_iff_named(a, path);
    summed_iff_named(b, path);
    assert forall|x: int|
        #![trigger a[x]]
        last_named(a, x, path) implies sum_of(a, path) == Some(a[x].checksum) by {
        last_sum_counts(a, x, path);
    }
    assert forall|y: int|
        #![trigger b[y]]
        last_named(b, y, path) implies sum_of(b, path) == Some(b[y].checksum) by {
        last_sum_counts(b, y, path);
    }
}

/// A comparison has one entry for every path that either list names, in
/// ascending order.
pub proof fn entries_cover_all_paths(d: DiffResult, a: Seq<SumModel>, b: Seq<SumModel>)
    requires
        reports(d, a, b),
    ensures
        forall|path: Seq<char>|
            #![trigger sum_paths(a).contains(path)]
            #![trigger sum_paths(b).contains(path)]
            sum_paths(a).contains(path) || sum_paths(b).contains(path) ==> exists|i: int|
                0 <= i < d.entries@.len() && (#[trigger] d.entries@[i]).path@ == path,
        forall|i: int, j: int|
            0 <= i < j < d.entries@.len() ==> text::text_before(
                (#[trigger] d.entries@[i]).path@,
                (#[trigger] d.entries@[j]).path@,
            ),
{
    let all = all_paths(a, b);
    all_paths_hold_both(a, b);
    assert forall|i: int| 0 <= i < d.entries@.len() implies (#[trigger] d.entries@[i]).path@
        == all[i] by {
        assert(diffs_view(d.entries@)[i] == d.entries@[i]@);
    }
    assert(all.len() == d.entries@.len()) by {
        assert(diffs_view(d.entries@).len() == d.entries@.len());
    }
    assert forall|path: Seq<char>|
        #![trigger sum_paths(a).contains(path)]
        #![trigger sum_paths(b).contains(path)]
        sum_paths(a).contains(path) || sum_paths(b).contains(path) implies exists|i: int|
        0 <= i < d.entries@.len() && (#[trigger] d.entries@[i]).path@ == path by {
        assert(all.contains(path));
        let i = choose|i: int| 0 <= i < all.len() && all[i] == path;
        assert(d.entries@[i].path@ == path);
    }
}

/// The paths with a given outcome.
spec fn paths_with(list: Seq<DiffModel>, status: DiffStatus) -> Set<Seq<char>> {
    Set::new(
        |p: Seq<char>|
            exists|i: int|
                0 <= i < list.len() && (#[trigger] list[i]).path == p && list[i].status == status,
    )
}

proof fn count_is_of_paths(list: Seq<DiffModel>, status: DiffStatus)
    requires
        forall|i: int, j: int|
            0 <= i < j < list.len() ==> (#[trigger] list[i]).path != (#[trigger] list[j]).path,
    ensures
        paths_with(list, status).finite(),
        paths_with(list, status).len() == count_of(list, status),
    decreases list.len(),
{
    let set = paths_with(list, status);
    if list.len() == 0 {
        assert(set =~= Set::<Seq<char>>::empty());
    } else {
        let init = list.drop_last();
        let last = list.last();
        let before = paths_with(init, status);
        assert(list[list.len() - 1] == last);
        assert forall|i: int, j: int| 0 <= i < j < init.len() implies (#[trigger] init[i]).path != (
        #[trigger] init[j]).path by {
            assert(list[i].path != list[j].path);
        }
        count_is_of_paths(init, status);
        assert forall|p: Seq<char>| before.contains(p) implies set.contains(p) && p
            != last.path by {
            let i = choose|i: int|
                0 <= i < init.len() && (#[trigger] init[i]).path == p && init[i].status == status;
            assert(list[i] == init[i]);
            assert(list[i].path != list[list.len() - 1].path);
        }
        assert forall|p: Seq<char>| set.contains(p) implies before.contains(p) || (p == last.path
            && last.status == status) by {
            let i = choose|i: int|
                0 <= i < list.len() && (#[trigger] list[i]).path == p && list[i].status == status;
            if i < init.len() {
                assert(init[i] == list[i]);
            }
        }
        if last.status == status {
            assert(set.contains(last.path));
            assert(set =~= before.insert(last.path));
        } else {
            assert(set =~= before);
        }
    }
}

/// The paths that both lists name, with the same checksum or with different
/// ones. Of a path that a list names more than once, the last checksum counts.
pub open spec fn common_paths(a: Seq<SumModel>, b: Seq<SumModel>, same: bool) -> Set<Seq<char>> {
    Set::new(
        |p: Seq<char>|
            exists|x: int, y: int|
                #![trigger a[x], b[y]]
                last_named(a, x, p) && last_named(b, y, p) && (a[x].checksum == b[y].checksum)
                    == same,
    )
}

/// A path that is named is named for a last time.
proof fn named_has_last(sums: Seq<SumModel>, path: Seq<char>) -> (k: int)
    requires
        sum_paths(sums).contains(path),
    ensures
        last_named(sums, k, path),
    decreases sums.len(),
{
    let all = sum_paths(sums);
    let i = choose|i: int| 0 <= i < all.len() && all[i] == path;
    assert(sums[sums.len() - 1] == sums.last());
    if sums.last().path == path {
        sums.len() - 1
    } else {
        let init = sums.drop_last();
        assert(sum_paths(init)[i] == path);
        let k = named_has_last(init, path);
        assert forall|j: int| k < j < sums.len() implies (#[trigger] sums[j]).path != path by {
            if j < init.len() {
                assert(init[j] == sums[j]);
            }
        }
        k
    }
}

/// The totals of a comparison count paths: those that only the first list
/// names, those that only the second names, and those that both name with
/// different and with the same checksums.
#[verifier::spinoff_prover]
pub proof fn totals_count_paths(d: DiffResult, a: Seq<SumModel>, b: Seq<SumModel>)
    requires
        reports(d, a, b),
    ensures
        d.only_in_a == sum_paths(a).to_set().difference(sum_paths(b).to_set()).len(),
        d.only_in_b == sum_paths(b).to_set().difference(sum_paths(a).to_set()).len(),
        d.changed == common_paths(a, b, false).len(),
        d.identical == common_paths(a, b, true).len(),
{
    let list = comparison(a, b);
    let all = all_paths(a, b);
    let sa = sum_paths(a).to_set();
    let sb = sum_paths(b).to_set();
    all_paths_hold_both(a, b);
    assert forall|i: int, j: int| 0 <= i < j < list.len() implies (#[trigger] list[i]).path != (
    #[trigger] list[j]).path by {
        assert(text::text_before(all[i], all[j]));
        order::before_irreflexive(all[i]);
    }
    count_is_of_paths(list, DiffStatus::OnlyInA);
    count_is_of_paths(list, DiffStatus::OnlyInB);
    count_is_of_paths(list, DiffStatus::Changed);
    count_is_of_paths(list, DiffStatus::Identical);
    assert forall|p: Seq<char>, status: DiffStatus| #[trigger]
        paths_with(list, status).contains(p) <==> all.contains(p) && compared(a, b, p).status
            == status by {
        if paths_with(list, status).contains(p) {
            let i = choose|i: int|
                0 <= i < list.len() && (#[trigger] list[i]).path == p && list[i].status == status;
            assert(list[i] == compared(a, b, all[i]));
            assert(all.contains(all[i]));
        }
        if all.contains(p) {
            let i = choose|i: int| 0 <= i < all.len() && all[i] == p;
            assert(list[i] == compared(a, b, p));
        }
    }
    assert forall|p: Seq<char>| true implies {
        &&& sum_of(a, p) is Some <==> #[trigger] sum_paths(a).contains(p)
        &&& sum_of(b, p) is Some <==> sum_paths(b).contains(p)
        &&& forall|same: bool| #[trigger]
            common_paths(a, b, same).contains(p) <==> sum_of(a, p) is Some && sum_of(b, p) is Some
                && (sum_of(a, p) == sum_of(b, p)) == same
    } by {
        common_path(a, b, p);
    }
    assert forall|p: Seq<char>| paths_with(list, DiffStatus::OnlyInA).contains(p)
        <==> sa.difference(sb).contains(p) by {
        assert(sum_of(a, p) is Some <==> sum_paths(a).contains(p));
        assert(all.contains(p) <==> sum_paths(a).contains(p) || sum_paths(b).contains(p));
    }
    assert forall|p: Seq<char>| paths_with(list, DiffStatus::OnlyInB).contains(p)
        <==> sb.difference(sa).contains(p) by {
        assert(sum_of(a, p) is Some <==> sum_paths(a).contains(p));
        assert(all.contains(p) <==> sum_paths(a).contains(p) || sum_paths(b).contains(p));
    }
    assert(paths_with(list, DiffStatus::OnlyInA) =~= sa.difference(sb));
    assert(paths_with(list, DiffStatus::OnlyInB) =~= sb.difference(sa));
    assert forall|p: Seq<char>| paths_with(list, DiffStatus::Changed).contains(p)
        <==> common_paths(a, b, false).contains(p) by {
        assert(sum_of(a, p) is Some <==> sum_paths(a).contains(p));
    }
    assert forall|p: Seq<char>| paths_with(list, DiffStatus::Identical).contains(p)
        <==> common_paths(a, b, true).contains(p) by {
        assert(sum_of(a, p) is Some <==> sum_paths(a).contains(p));
    }
    assert(paths_with(list, DiffStatus::Changed) =~= common_paths(a, b, false));
    assert(paths_with(list, DiffStatus::Identical) =~= common_paths(a, b, true));
}

proof fn common_path(a: Seq<SumModel>, b: Seq<SumModel>, p: Seq<char>)
    ensures
        sum_of(a, p) is Some <==> sum_paths(a).contains(p),
        sum_of(b, p) is Some <==> sum_paths(b).contains(p),
        forall|same: bool| #[trigger]
            common_paths(a, b, same).contains(p) <==> sum_of(a, p) is Some && sum_of(b, p) is Some
                && (sum_of(a, p) == sum_of(b, p)) == same,
{
    summed_iff_named(a, p);
    summed_iff_named(b, p);
    assert forall|same: bool| #[trigger] common_paths(a, b, same).contains(p) <==> sum_of(
        a,
        p,
    ) is Some && sum_of(b, p) is Some && (sum_of(a, p) == sum_of(b, p)) == same by {
        if common_paths(a, b, same).contains(p) {
            let (x, y) = choose|x: int, y: int|
                #![trigger a[x], b[y]]
                last_named(a, x, p) && last_named(b, y, p) && (a[x].checksum == b[y].checksum)
                    == same;
            last_sum_counts(a, x, p);
            last_sum_counts(b, y, p);
        }
        if sum_of(a, p) is Some && sum_of(b, p) is Some {
            let x = named_has_last(a, p);
            let y = named_has_last(b, p);
            last_sum_counts(a, x, p);
            last_sum_counts(b, y, p);
            assert(a[x].checksum == a[x].checksum && b[y].checksum == b[y].checksum);
        }
    }
}

/// A pack is compared by the recorded path and checksum of each member.
pub proof fn sums_of_pack(
    level: i32,
    members: Seq<MemberModel>,
    name: Seq<char>,
    path: Seq<char>,
)
    requires
        packing::readable(members, Purpose::List),
    ensures
        archive_sums(pack::pack_bytes(level, members), name, path) matches Ok(sums) && sums.len()
            == members.len() && forall|k: int|
            0 <= k < members.len() ==> (#[trigger] sums[k]).path == members[k].path
                && sums[k].checksum == members[k].checksum,
{
    let archive = pack::pack_bytes(level, members);
    packing::listing_of_packed(level, members, path);
    packing::prologue_round_trip(
        level,
        members.len() as u32,
        pack::members_bytes(members),
        Purpose::List,
    );
    assert(archive.take(4) == header::MAGIC@);
}

/// A single-file archive is compared as one file of the given name, with the
/// SHA-256 of its contents.
pub proof fn sums_of_container(
    data: Seq<u8>,
    level: i32,
    frame: Seq<u8>,
    name: Seq<char>,
    path: Seq<char>,
)
    requires
        data.len() <= u64::MAX,
        codec::decodes_to(frame, Seq::empty(), data),
        codec::sha256_digest(data).len() == codec::HASH_LEN,
    ensures
        archive_sums(container::container_bytes(data, level, frame), name, path) == Ok::<
            Seq<SumModel>,
            Failure,
        >(seq![SumModel { path: name, checksum: codec::sha256_digest(data) }]),
{
    inspect::compressed_file_is_whole(data, level, frame, None, path);
}

/// A single-file archive without a recorded checksum is compared by the SHA-256
/// of its contents.
pub proof fn sums_of_old_container(
    data: Seq<u8>,
    level: i32,
    frame: Seq<u8>,
    name: Seq<char>,
    path: Seq<char>,
)
    requires
        data.len() <= u64::MAX,
        codec::decodes_to(frame, Seq::empty(), data),
    ensures
        ({
            let h = header::HeaderModel {
                version: header::VERSION_V1,
                level,
                original_len: data.len() as u64,
                checksum: None,
            };
            archive_sums(header::header_bytes(h) + frame, name, path) == Ok::<
                Seq<SumModel>,
                Failure,
            >(seq![SumModel { path: name, checksum: codec::sha256_digest(data) }])
        }),
{
    let h = header::HeaderModel {
        version: header::VERSION_V1,
        level,
        original_len: data.len() as u64,
        checksum: None,
    };
    container::v1_round_trip(data, level, frame, Seq::empty());
    header::header_round_trip(h, frame);
}

/// A single-file archive with a recorded checksum is compared by it, without
/// being opened.
pub proof fn recorded_sum_is_compared(
    h: header::HeaderModel,
    hash: Seq<u8>,
    frame: Seq<u8>,
    name: Seq<char>,
    path: Seq<char>,
)
    requires
        h.version == header::VERSION,
        h.checksum == Some(hash),
        hash.len() == 32,
    ensures
        archive_sums(header::header_bytes(h) + frame, name, path) == Ok::<Seq<SumModel>, Failure>(
            seq![SumModel { path: name, checksum: hash }],
        ),
{
    header::header_round_trip(h, frame);
}

/// Two archives are equal exactly if they name the same paths with the same
/// checksums.
pub proof fn equal_archives_have_same_sums(d: DiffResult, a: Seq<SumModel>, b: Seq<SumModel>)
    requires
        reports(d, a, b),
    ensures
        shows_no_difference(d) <==> (sum_paths(a).to_set() =~= sum_paths(b).to_set() && forall|
            x: int,
            y: int,
            path: Seq<char>,
        |
            #![trigger last_named(a, x, path), last_named(b, y, path)]
            last_named(a, x, path) && last_named(b, y, path) ==> a[x].checksum == b[y].checksum),
{
    equal_means_same_sums(a, b);
    if shows_no_difference(d) {
        assert forall|path: Seq<char>| sum_paths(a).to_set().contains(path)
            <==> sum_paths(b).to_set().contains(path) by {
            summed_iff_named(a, path);
            summed_iff_named(b, path);
            assert(sum_of(a, path) == sum_of(b, path));
        }
        assert forall|x: int, y: int, path: Seq<char>|
            #![trigger last_named(a, x, path), last_named(b, y, path)]
            last_named(a, x, path) && last_named(b, y, path) implies a[x].checksum
            == b[y].checksum by {
            last_sum_counts(a, x, path);
            last_sum_counts(b, y, path);
            assert(sum_of(a, path) == sum_of(b, path));
        }
    }
    if sum_paths(a).to_set() =~= sum_paths(b).to_set() && forall|x: int, y: int, path: Seq<char>|
        #![trigger last_named(a, x, path), last_named(b, y, path)]
        last_named(a, x, path) && last_named(b, y, path) ==> a[x].checksum == b[y].checksum {
        assert forall|path: Seq<char>| #[trigger] sum_of(a, path) == sum_of(b, path) by {
            summed_iff_named(a, path);
            summed_iff_named(b, path);
            assert(sum_paths(a).to_set().contains(path) <==> sum_paths(b).to_set().contains(
                path,
            ));
            if sum_paths(a).contains(path) {
                let x = named_has_last(a, path);
                let y = named_has_last(b, path);
                last_sum_counts(a, x, path);
                last_sum_counts(b, y, path);
            }
        }
    }
}

/// Comparing two packs tells by the paths and checksums of their members which
/// are only in the first, only in the second, changed or the same. Of several
/// members with one path, the last counts.
pub proof fn packs_are_compared_by_members(
    d: DiffResult,
    level_a: i32,
    a: Seq<MemberModel>,
    level_b: i32,
    b: Seq<MemberModel>,
    name: Seq<char>,
    path: Seq<char>,
    i: int,
)
    requires
        packing::readable(a, Purpose::List),
        packing::readable(b, Purpose::List),
        archive_sums(pack::pack_bytes(level_a, a), name, path) matches Ok(sa) && archive_sums(
            pack::pack_bytes(level_b, b),
            name,
            path,
        ) matches Ok(sb) && reports(d, sa, sb),
        0 <= i < d.entries@.len(),
    ensures
        ({
            let e = d.entries@[i];
            let in_a = exists|k: int| 0 <= k < a.len() && (#[trigger] a[k]).path == e.path@;
            let in_b = exists|k: int| 0 <= k < b.len() && (#[trigger] b[k]).path == e.path@;
            &&& e.status == DiffStatus::OnlyInA <==> in_a && !in_b
            &&& e.status == DiffStatus::OnlyInB <==> !in_a && in_b
            &&& forall|x: int, y: int|
                #![trigger a[x], b[y]]
                last_member(a, x, e.path@) && last_member(b, y, e.path@) ==> {
                    &&& e.status == DiffStatus::Changed <==> a[x].checksum != b[y].checksum
                    &&& e.status == DiffStatus::Identical <==> a[x].checksum == b[y].checksum
                }
        }),
{
    sums_of_pack(level_a, a, name, path);
    sums_of_pack(level_b, b, name, path);
    let sa = archive_sums(pack::pack_bytes(level_a, a), name, path)->Ok_0;
    let sb = archive_sums(pack::pack_bytes(level_b, b), name, path)->Ok_0;
    let e = d.entries@[i];
    entries_tell_the_sides(d, sa, sb, i);
    named_by_members(sa, a, e.path@);
    named_by_members(sb, b, e.path@);
    assert forall|x: int, y: int|
        #![trigger a[x], b[y]]
        last_member(a, x, e.path@) && last_member(b, y, e.path@) implies {
        &&& e.status == DiffStatus::Changed <==> a[x].checksum != b[y].checksum
        &&& e.status == DiffStatus::Identical <==> a[x].checksum == b[y].checksum
    } by {
        assert(sa[x].path == a[x].path);
        assert(sb[y].path == b[y].path);
        assert forall|j: int| x < j < sa.len() implies (#[trigger] sa[j]).path != e.path@ by {
            assert(a[j].path != e.path@);
        }
        assert forall|j: int| y < j < sb.len() implies (#[trigger] sb[j]).path != e.path@ by {
            assert(b[j].path != e.path@);
        }
        assert(last_named(sa, x, e.path@));
        assert(last_named(sb, y, e.path@));
        assert(sa[x].checksum == a[x].checksum && sb[y].checksum == b[y].checksum);
    }
}

/// Whether number `k` is the last member with this path.
pub open spec fn last_member(members: Seq<MemberModel>, k: int, path: Seq<char>) -> bool {
    0 <= k < members.len() && members[k].path == path && forall|j: int|
        k < j < members.len() ==> (#[trigger] members[j]).path != path
}

proof fn named_by_members(sums: Seq<SumModel>, members: Seq<MemberModel>, path: Seq<char>)
    requires
        sums.len() == members.len(),
        forall|k: int|
            0 <= k < members.len() ==> (#[trigger] sums[k]).path == members[k].path,
    ensures
        sum_paths(sums).contains(path) <==> exists|k: int|
            0 <= k < members.len() && (#[trigger] members[k]).path == path,
{
    let all = sum_paths(sums);
    if all.contains(path) {
        let k = choose|k: int| 0 <= k < all.len() && all[k] == path;
        assert(sums[k].path == path);
        assert(members[k].path == path);
    }
    if exists|k: int| 0 <= k < members.len() && (#[trigger] members[k]).path == path {
        let k = choose|k: int| 0 <= k < members.len() && (#[trigger] members[k]).path == path;
        assert(sums[k].path == path);
        assert(all[k] == path);
    }
}

} // verus!
