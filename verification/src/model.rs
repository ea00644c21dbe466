//! The mathematical model of a parameter list: a sequence of name/value
//! pairs, each name and value a sequence of characters.
use vstd::prelude::*;

verus! {

/// One name/value pair, as characters.
pub type Entry = (Seq<char>, Seq<char>);

/// The model of a list of owned pairs.
pub open spec fn entries_view(pairs: Seq<(String, String)>) -> Seq<Entry> {
    pairs.map_values(|e: (String, String)| (e.0@, e.1@))
}

/// The model of a list of strings.
pub open spec fn strings_view(strings: Seq<String>) -> Seq<Seq<char>> {
    strings.map_values(|s: String| s@)
}

/// The model of an optional string.
pub open spec fn opt_view(s: Option<String>) -> Option<Seq<char>> {
    match s {
        Some(s) => Some(s@),
        None => None,
    }
}

/// An entry matches a name, and a value where one is given.
pub open spec fn entry_matches(e: Entry, name: Seq<char>, value: Option<Seq<char>>) -> bool {
    &&& e.0 == name
    &&& match value {
        Some(v) => e.1 == v,
        None => true,
    }
}

/// The entries of `p`, in order, whose matching against `name`/`value`
/// equals `keep`.
pub open spec fn select(p: Seq<Entry>, name: Seq<char>, value: Option<Seq<char>>, keep: bool) -> Seq<
    Entry,
>
    decreases p.len(),
{
    if p.len() == 0 {
        Seq::empty()
    } else {
        let rest = select(p.drop_last(), name, value, keep);
        if entry_matches(p.last(), name, value) == keep {
            rest.push(p.last())
        } else {
            rest
        }
    }
}

/// The entries that match, in order.
pub open spec fn matching(p: Seq<Entry>, name: Seq<char>, value: Option<Seq<char>>) -> Seq<Entry> {
    select(p, name, value, true)
}

/// The entries that do not match, in order.
pub open spec fn without(p: Seq<Entry>, name: Seq<char>, value: Option<Seq<char>>) -> Seq<Entry> {
    select(p, name, value, false)
}

/// The values of the entries named `name`, in order.
pub open spec fn values_named(p: Seq<Entry>, name: Seq<char>) -> Seq<Seq<char>> {
    matching(p, name, None).map_values(|e: Entry| e.1)
}

/// The value of the first entry named `name`, if there is one.
pub open spec fn first_value(p: Seq<Entry>, name: Seq<char>) -> Option<Seq<char>> {
    if values_named(p, name).len() > 0 {
        Some(values_named(p, name)[0])
    } else {
        None
    }
}

/// Some entry matches.
pub open spec fn has_match(p: Seq<Entry>, name: Seq<char>, value: Option<Seq<char>>) -> bool {
    exists|i: int| 0 <= i < p.len() && entry_matches(#[trigger] p[i], name, value)
}

/// `i` is the index of the first entry named `name`.
pub open spec fn is_first_named(p: Seq<Entry>, name: Seq<char>, i: int) -> bool {
    &&& 0 <= i < p.len()
    &&& p[i].0 == name
    &&& forall|j: int| 0 <= j < i ==> (#[trigger] p[j]).0 != name
}

/// The index of the first entry named `name` (meaningful only where one exists).
pub open spec fn first_named(p: Seq<Entry>, name: Seq<char>) -> int {
    choose|i: int| is_first_named(p, name, i)
}

/// The list after setting `name` to `value`: the first entry of that name
/// takes the value and the later ones leave; with no such entry, the pair is
/// appended.
pub open spec fn set_entry(p: Seq<Entry>, name: Seq<char>, value: Seq<char>) -> Seq<Entry> {
    if has_match(p, name, None) {
        let i = first_named(p, name);
        p.take(i).push((name, value)) + without(p.skip(i + 1), name, None)
    } else {
        p.push((name, value))
    }
}

pub proof fn lemma_select_add(
    a: Seq<Entry>,
    b: Seq<Entry>,
    name: Seq<char>,
    value: Option<Seq<char>>,
    keep: bool,
)
    ensures
        select(a + b, name, value, keep) == select(a, name, value, keep) + select(
            b,
            name,
            value,
            keep,
        ),
    decreases b.len(),
{
    if b.len() == 0 {
        assert(a + b =~= a);
        assert(select(a, name, value, keep) + select(b, name, value, keep) =~= select(
            a,
            name,
            value,
            keep,
        ));
    } else {
        lemma_select_add(a, b.drop_last(), name, value, keep);
        assert((a + b).drop_last() =~= a + b.drop_last());
        assert((a + b).last() == b.last());
        let sa = select(a, name, value, keep);
        let sb = select(b.drop_last(), name, value, keep);
        assert((sa + sb).push(b.last()) =~= sa + sb.push(b.last()));
    }
}

/// Selecting from a list with one more entry at the end.
pub proof fn lemma_select_push(
    p: Seq<Entry>,
    e: Entry,
    name: Seq<char>,
    value: Option<Seq<char>>,
    keep: bool,
)
    ensures
        select(p.push(e), name, value, keep) == if entry_matches(e, name, value) == keep {
            select(p, name, value, keep).push(e)
        } else {
            select(p, name, value, keep)
        },
{
    assert(p.push(e).drop_last() =~= p);
}

/// Where no entry has the selected matching, nothing is selected.
pub proof fn lemma_select_none(p: Seq<Entry>, name: Seq<char>, value: Option<Seq<char>>, keep: bool)
    requires
        forall|i: int| 0 <= i < p.len() ==> entry_matches(#[trigger] p[i], name, value) != keep,
    ensures
        select(p, name, value, keep) == Seq::<Entry>::empty(),
    decreases p.len(),
{
    if p.len() > 0 {
        lemma_select_none(p.drop_last(), name, value, keep);
    }
}

/// Where every entry has the selected matching, all are selected.
pub proof fn lemma_select_all(p: Seq<Entry>, name: Seq<char>, value: Option<Seq<char>>, keep: bool)
    requires
        forall|i: int| 0 <= i < p.len() ==> entry_matches(#[trigger] p[i], name, value) == keep,
    ensures
        select(p, name, value, keep) == p,
    decreases p.len(),
{
    if p.len() > 0 {
        lemma_select_all(p.drop_last(), name, value, keep);
        assert(p.drop_last().push(p.last()) =~= p);
    }
}

/// The selected entries are entries of the list, with the selected matching.
pub proof fn lemma_select_members(
    p: Seq<Entry>,
    name: Seq<char>,
    value: Option<Seq<char>>,
    keep: bool,
)
    ensures
        select(p, name, value, keep).len() <= p.len(),
        forall|k: int|
            0 <= k < select(p, name, value, keep).len() ==> {
                &&& entry_matches(#[trigger] select(p, name, value, keep)[k], name, value) == keep
                &&& p.contains(select(p, name, value, keep)[k])
            },
    decreases p.len(),
{
    if p.len() > 0 {
        lemma_select_members(p.drop_last(), name, value, keep);
        let r = select(p.drop_last(), name, value, keep);
        assert forall|k: int| 0 <= k < r.len() implies p.contains(#[trigger] r[k]) by {
            let j = choose|j: int| 0 <= j < p.drop_last().len() && p.drop_last()[j] == r[k];
            assert(p[j] == r[k]);
        }
        assert(p[p.len() - 1] == p.last());
    }
}

/// A list has an entry with the given matching exactly when selection finds one.
pub proof fn lemma_select_nonempty(
    p: Seq<Entry>,
    name: Seq<char>,
    value: Option<Seq<char>>,
)
    ensures
        has_match(p, name, value) <==> matching(p, name, value).len() > 0,
    decreases p.len(),
{
    if p.len() > 0 {
        lemma_select_nonempty(p.drop_last(), name, value);
        if has_match(p, name, value) {
            let i = choose|i: int| 0 <= i < p.len() && entry_matches(#[trigger] p[i], name, value);
            if i < p.len() - 1 {
                assert(p.drop_last()[i] == p[i]);
            }
        }
        if has_match(p.drop_last(), name, value) {
            let i = choose|i: int|
                0 <= i < p.drop_last().len() && entry_matches(#[trigger] p.drop_last()[i], name, value);
            assert(p[i] == p.drop_last()[i]);
        }
    }
}

/// The first entry of a name is the one `first_named` picks.
pub proof fn lemma_first_named_unique(p: Seq<Entry>, name: Seq<char>, i: int)
    requires
        is_first_named(p, name, i),
    ensures
        first_named(p, name) == i,
{
    let c = first_named(p, name);
    assert(is_first_named(p, name, c));
    if c < i {
        assert(p[c].0 != name);
    }
    if i < c {
        assert(p[i].0 != name);
    }
}

/// Where there is an entry of a name, there is a first one.
pub proof fn lemma_first_named_exists(p: Seq<Entry>, name: Seq<char>)
    requires
        has_match(p, name, None),
    ensures
        is_first_named(p, name, first_named(p, name)),
    decreases p.len(),
{
    if p.len() > 0 && p[0].0 != name {
        let t = p.drop_first();
        let j = choose|j: int| 0 <= j < p.len() && entry_matches(#[trigger] p[j], name, None);
        assert(t[j - 1] == p[j]);
        assert(has_match(t, name, None));
        lemma_first_named_exists(t, name);
        let k = first_named(t, name);
        assert forall|q: int| 0 <= q < k + 1 implies (#[trigger] p[q]).0 != name by {
            if q > 0 {
                assert(p[q] == t[q - 1]);
            }
        }
        assert(is_first_named(p, name, k + 1));
    } else {
        let j = choose|j: int| 0 <= j < p.len() && entry_matches(#[trigger] p[j], name, None);
        assert(is_first_named(p, name, 0));
    }
}

/// Selecting by the opposite matchings splits a list's length.
pub proof fn lemma_select_len(p: Seq<Entry>, name: Seq<char>, value: Option<Seq<char>>)
    ensures
        matching(p, name, value).len() + without(p, name, value).len() == p.len(),
    decreases p.len(),
{
    if p.len() > 0 {
        lemma_select_len(p.drop_last(), name, value);
    }
}

/// Leaving out the entries that match `name`/`value` does not change the
/// entries of any other name.
pub proof fn lemma_without_other_name(
    p: Seq<Entry>,
    name: Seq<char>,
    value: Option<Seq<char>>,
    other: Seq<char>,
)
    requires
        other != name,
    ensures
        matching(without(p, name, value), other, None) == matching(p, other, None),
    decreases p.len(),
{
    if p.len() > 0 {
        lemma_without_other_name(p.drop_last(), name, value, other);
        lemma_select_push(without(p.drop_last(), name, value), p.last(), other, None, true);
    }
}

/// No entry that is left after removing a name has that name.
pub proof fn lemma_without_name_none_left(p: Seq<Entry>, name: Seq<char>)
    ensures
        matching(without(p, name, None), name, None) == Seq::<Entry>::empty(),
{
    let w = without(p, name, None);
    lemma_select_members(p, name, None, false);
    lemma_select_none(w, name, None, true);
}

} // verus!
