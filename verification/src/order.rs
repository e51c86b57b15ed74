//! Sorted lists of distinct names.

use vstd::prelude::*;

use crate::text;

verus! {

/// `names` strictly ascending.
pub open spec fn ascending(names: Seq<Seq<char>>) -> bool {
    forall|i: int, j: int|
        0 <= i < j < names.len() ==> text::text_before(#[trigger] names[i], #[trigger] names[j])
}

/// `names` with `name` put at its place, unless it is there already.
pub open spec fn with_name(names: Seq<Seq<char>>, name: Seq<char>) -> Seq<Seq<char>>
    decreases names.len(),
{
    if names.len() == 0 {
        seq![name]
    } else if names.last() == name {
        names
    } else if text::text_before(names.last(), name) {
        names.push(name)
    } else {
        with_name(names.drop_last(), name).push(names.last())
    }
}

/// The distinct elements of `list`, in ascending order.
pub open spec fn sorted_names(list: Seq<Seq<char>>) -> Seq<Seq<char>>
    decreases list.len(),
{
    if list.len() == 0 {
        Seq::empty()
    } else {
        with_name(sorted_names(list.drop_last()), list.last())
    }
}

/// The order is irreflexive.
pub proof fn before_irreflexive(a: Seq<char>)
    ensures
        !text::text_before(a, a),
    decreases a.len(),
{
    if a.len() > 0 {
        before_irreflexive(a.skip(1));
    }
}

/// The order is transitive.
pub proof fn before_transitive(a: Seq<char>, b: Seq<char>, c: Seq<char>)
    requires
        text::text_before(a, b),
        text::text_before(b, c),
    ensures
        text::text_before(a, c),
    decreases a.len(),
{
    if a.len() > 0 && b.len() > 0 && c.len() > 0 && a[0] == b[0] && b[0] == c[0] {
        before_transitive(a.skip(1), b.skip(1), c.skip(1));
    }
}

/// Two different strings are ordered one way or the other.
pub proof fn before_total(a: Seq<char>, b: Seq<char>)
    requires
        a != b,
    ensures
        text::text_before(a, b) || text::text_before(b, a),
    decreases a.len(),
{
    if a.len() == 0 || b.len() == 0 {
        if a.len() == b.len() {
            assert(a == b);
        }
    } else if a[0] == b[0] {
        if a.skip(1) == b.skip(1) {
            assert(a == seq![a[0]] + a.skip(1));
            assert(b == seq![b[0]] + b.skip(1));
        }
        before_total(a.skip(1), b.skip(1));
    }
}

/// Putting a name at its place keeps the list ascending, and adds that name
/// and no other.
pub proof fn with_name_sorted(names: Seq<Seq<char>>, name: Seq<char>)
    requires
        ascending(names),
    ensures
        ascending(with_name(names, name)),
        forall|x: Seq<char>| #[trigger]
            with_name(names, name).contains(x) <==> names.contains(x) || x == name,
    decreases names.len(),
{
    let out = with_name(names, name);
    if names.len() == 0 {
        assert(out[0] == name);
    } else if names.last() == name {
        assert(names[names.len() - 1] == name);
    } else if text::text_before(names.last(), name) {
        assert forall|i: int, j: int| 0 <= i < j < out.len() implies text::text_before(
            #[trigger] out[i],
            #[trigger] out[j],
        ) by {
            if j == names.len() && i < names.len() - 1 {
                assert(text::text_before(names[i], names[names.len() - 1]));
                before_transitive(names[i], names.last(), name);
            }
        }
        assert forall|x: Seq<char>| #[trigger] out.contains(x) implies names.contains(x) || x
            == name by {
            let k = choose|k: int| 0 <= k < out.len() && out[k] == x;
            if k < names.len() {
                assert(names[k] == x);
            }
        }
        assert forall|x: Seq<char>| names.contains(x) || x == name implies #[trigger] out.contains(
            x,
        ) by {
            if x == name {
                assert(out[names.len() as int] == x);
            } else {
                let k = choose|k: int| 0 <= k < names.len() && names[k] == x;
                assert(out[k] == x);
            }
        }
    } else {
        let shorter = names.drop_last();
        let last = names.last();
        let inner = with_name(shorter, name);
        with_name_sorted(shorter, name);
        before_total(name, last);
        assert forall|i: int| 0 <= i < inner.len() implies text::text_before(
            #[trigger] inner[i],
            last,
        ) by {
            assert(inner.contains(inner[i]));
            if inner[i] != name {
                let k = choose|k: int| 0 <= k < shorter.len() && shorter[k] == inner[i];
                assert(text::text_before(names[k], names[names.len() - 1]));
            }
        }
        assert forall|x: Seq<char>| #[trigger] out.contains(x) implies names.contains(x) || x
            == name by {
            let k = choose|k: int| 0 <= k < out.len() && out[k] == x;
            if k < inner.len() {
                assert(inner[k] == x);
                assert(inner.contains(x));
                if x != name {
                    let m = choose|m: int| 0 <= m < shorter.len() && shorter[m] == x;
                    assert(names[m] == x);
                }
            } else {
                assert(names[names.len() - 1] == x);
            }
        }
        assert forall|x: Seq<char>| names.contains(x) || x == name implies #[trigger] out.contains(
            x,
        ) by {
            if x == name {
                assert(inner.contains(x));
                let k = choose|k: int| 0 <= k < inner.len() && inner[k] == x;
                assert(out[k] == x);
            } else {
                let k = choose|k: int| 0 <= k < names.len() && names[k] == x;
                if k < shorter.len() {
                    assert(shorter[k] == x);
                    assert(inner.contains(x));
                    let m = choose|m: int| 0 <= m < inner.len() && inner[m] == x;
                    assert(out[m] == x);
                } else {
                    assert(out[inner.len() as int] == x);
                }
            }
        }
    }
}

/// `sorted_names` is strictly ascending and holds exactly what `list` holds.
pub proof fn sorted_names_sorted(list: Seq<Seq<char>>)
    ensures
        ascending(sorted_names(list)),
        forall|x: Seq<char>| #[trigger] sorted_names(list).contains(x) <==> list.contains(x),
    decreases list.len(),
{
    if list.len() > 0 {
        let shorter = list.drop_last();
        sorted_names_sorted(shorter);
        with_name_sorted(sorted_names(shorter), list.last());
        assert forall|x: Seq<char>| #[trigger] sorted_names(list).contains(x) <==> list.contains(
            x,
        ) by {
            if list.contains(x) {
                let k = choose|k: int| 0 <= k < list.len() && list[k] == x;
                if k < shorter.len() {
                    assert(shorter[k] == x);
                    assert(sorted_names(shorter).contains(x));
                }
            }
            if sorted_names(list).contains(x) && x != list.last() {
                assert(shorter.contains(x));
                let k = choose|k: int| 0 <= k < shorter.len() && shorter[k] == x;
                assert(list[k] == x);
            }
            if x == list.last() {
                assert(list[list.len() - 1] == x);
            }
        }
    } else {
        assert forall|x: Seq<char>| #[trigger] sorted_names(list).contains(x) implies list.contains(
            x,
        ) by {}
    }
}

/// There is one ascending list of given elements.
pub proof fn ascending_unique(a: Seq<Seq<char>>, b: Seq<Seq<char>>)
    requires
        ascending(a),
        ascending(b),
        forall|x: Seq<char>| #[trigger] a.contains(x) <==> b.contains(x),
    ensures
        a == b,
    decreases a.len(),
{
    if a.len() == 0 {
        if b.len() > 0 {
            assert(b.contains(b[0]));
            assert(a.contains(b[0]));
        }
        assert(a == b);
    } else {
        let x = a.last();
        assert(a[a.len() - 1] == x);
        assert(a.contains(x));
        assert(b.contains(x));
        let k = choose|k: int| 0 <= k < b.len() && b[k] == x;
        let y = b.last();
        assert(b[b.len() - 1] == y);
        assert(b.contains(y));
        assert(a.contains(y));
        let m = choose|m: int| 0 <= m < a.len() && a[m] == y;
        if x != y {
            assert(text::text_before(b[k], b[b.len() - 1]));
            assert(text::text_before(a[m], a[a.len() - 1]));
            before_transitive(x, y, x);
            before_irreflexive(x);
        }
        let shorter_a = a.drop_last();
        let shorter_b = b.drop_last();
        assert forall|z: Seq<char>| #[trigger] shorter_a.contains(z) <==> shorter_b.contains(
            z,
        ) by {
            if shorter_a.contains(z) {
                let i = choose|i: int| 0 <= i < shorter_a.len() && shorter_a[i] == z;
                assert(a[i] == z);
                assert(text::text_before(a[i], a[a.len() - 1]));
                before_irreflexive(x);
                assert(a.contains(z));
                assert(b.contains(z));
                let j = choose|j: int| 0 <= j < b.len() && b[j] == z;
                assert(j != b.len() - 1);
                assert(shorter_b[j] == z);
            }
            if shorter_b.contains(z) {
                let i = choose|i: int| 0 <= i < shorter_b.len() && shorter_b[i] == z;
                assert(b[i] == z);
                assert(text::text_before(b[i], b[b.len() - 1]));
                before_irreflexive(x);
                assert(b.contains(z));
                assert(a.contains(z));
                let j = choose|j: int| 0 <= j < a.len() && a[j] == z;
                assert(j != a.len() - 1);
                assert(shorter_a[j] == z);
            }
        }
        assert(ascending(shorter_a)) by {
            assert forall|i: int, j: int| 0 <= i < j < shorter_a.len() implies text::text_before(
                #[trigger] shorter_a[i],
                #[trigger] shorter_a[j],
            ) by {
                assert(text::text_before(a[i], a[j]));
            }
        }
        assert(ascending(shorter_b)) by {
            assert forall|i: int, j: int| 0 <= i < j < shorter_b.len() implies text::text_before(
                #[trigger] shorter_b[i],
                #[trigger] shorter_b[j],
            ) by {
                assert(text::text_before(b[i], b[j]));
            }
        }
        ascending_unique(shorter_a, shorter_b);
        assert(a == shorter_a.push(x));
        assert(b == shorter_b.push(y));
    }
}

/// Puts `name` at its place in `names`, unless it is there already.
pub fn add_name(names: &mut Vec<String>, name: &str)
    ensures
        text::texts(final(names)@) == with_name(text::texts(old(names)@), name@),
{
    let ghost all = text::texts(names@);
    let mut i: usize = names.len();
    assert(all.take(i as int) == all);
    assert(all.skip(i as int) == Seq::<Seq<char>>::empty());
    assert(with_name(all, name@) == with_name(all.take(i as int), name@) + all.skip(i as int));
    while i > 0
        invariant
            i <= names@.len(),
            all == text::texts(names@),
            all == text::texts(old(names)@),
            with_name(all, name@) == with_name(all.take(i as int), name@) + all.skip(i as int),
        decreases i,
    {
        let ghost head = all.take(i as int);
        assert(head.last() == names@[i - 1]@);
        if text::same_text(names[i - 1].as_str(), name) {
            assert(head + all.skip(i as int) == all);
            return;
        }
        if text::comes_before(names[i - 1].as_str(), name) {
            names.insert(i, name.to_owned());
            assert(text::texts(names@) == head.push(name@) + all.skip(i as int));
            return;
        }
        assert(head.drop_last() == all.take(i - 1));
        assert(all.skip(i - 1) == seq![head.last()] + all.skip(i as int));
        assert(with_name(head, name@) == with_name(all.take(i - 1), name@).push(head.last()));
        assert(with_name(all.take(i - 1), name@).push(head.last()) + all.skip(i as int)
            == with_name(all.take(i - 1), name@) + all.skip(i - 1));
        i = i - 1;
    }
    assert(all.take(0) == Seq::<Seq<char>>::empty());
    names.insert(0, name.to_owned());
    assert(text::texts(names@) == seq![name@] + all.skip(0));
}

} // verus!
