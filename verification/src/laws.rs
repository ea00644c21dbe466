//! Properties that relate the operations of a parameter list, stated over
//! the models that the operations' contracts use.
use vstd::prelude::*;
use vstd::utf8::encode_utf8;
use crate::model::{
    Entry, entry_matches, first_value, has_match, is_first_named, first_named, matching,
    set_entry, values_named, without, lemma_first_named_exists, lemma_first_named_unique,
    lemma_select_add, lemma_select_all, lemma_select_len, lemma_select_members, lemma_select_none,
    lemma_select_nonempty, lemma_select_push, lemma_without_name_none_left,
    lemma_without_other_name,
};
use crate::order::{
    name_lt, name_bytes_lt, utf16_units, lemma_bytes_lt_irreflexive, lemma_units_lt_irreflexive,
    lemma_units_lt_total, lemma_same_units,
};
use crate::sorting::{same_per_name, sorted_by_name, strictly_sorted_by_name};

verus! {

/// Leaving out the entries that match `name`/`value` keeps every entry that
/// matches `k`/`w`, where no entry can match both.
proof fn lemma_without_disjoint(
    p: Seq<Entry>,
    name: Seq<char>,
    value: Option<Seq<char>>,
    k: Seq<char>,
    w: Option<Seq<char>>,
)
    requires
        forall|e: Entry| !(#[trigger] entry_matches(e, name, value) && entry_matches(e, k, w)),
    ensures
        matching(without(p, name, value), k, w) == matching(p, k, w),
    decreases p.len(),
{
    if p.len() > 0 {
        lemma_without_disjoint(p.drop_last(), name, value, k, w);
        lemma_select_push(without(p.drop_last(), name, value), p.last(), k, w, true);
    }
}

/// A value is among the values of a name exactly when an entry has that name
/// and value.
proof fn lemma_values_named_contains(p: Seq<Entry>, name: Seq<char>, v: Seq<char>)
    ensures
        has_match(p, name, Some(v)) <==> values_named(p, name).contains(v),
    decreases p.len(),
{
    let vp = values_named(p, name);
    if p.len() == 0 {
        assert(vp =~= Seq::<Seq<char>>::empty());
    } else {
        let q = p.drop_last();
        let vq = values_named(q, name);
        let last = p.last();
        lemma_values_named_contains(q, name, v);
        assert(q.push(last) =~= p);
        lemma_select_push(q, last, name, None, true);
        let hit = last.0 == name;
        if hit {
            assert(vp =~= vq.push(last.1));
        } else {
            assert(vp == vq);
        }
        if has_match(p, name, Some(v)) {
            let i = choose|i: int| 0 <= i < p.len() && entry_matches(#[trigger] p[i], name, Some(v));
            if i < p.len() - 1 {
                assert(q[i] == p[i]);
                assert(has_match(q, name, Some(v)));
                let j = choose|j: int| 0 <= j < vq.len() && vq[j] == v;
                assert(vp[j] == v);
            } else {
                assert(p[i] == last);
                assert(vp[vp.len() - 1] == v);
            }
            assert(vp.contains(v));
        }
        if vp.contains(v) {
            let j = choose|j: int| 0 <= j < vp.len() && vp[j] == v;
            if hit && j == vp.len() - 1 {
                assert(p[p.len() - 1] == last);
                assert(entry_matches(p[p.len() - 1], name, Some(v)));
            } else {
                assert(vq[j] == v);
                assert(vq.contains(v));
                let i = choose|i: int| 0 <= i < q.len() && entry_matches(#[trigger] q[i], name, Some(v));
                assert(p[i] == q[i]);
                assert(entry_matches(p[i], name, Some(v)));
            }
            assert(has_match(p, name, Some(v)));
        }
    }
}

/// `get` gives the first of the values that `get_all` gives, and there is one
/// exactly when `has` (without a value) holds.
pub proof fn law_get_is_first_of_get_all(p: Seq<Entry>, name: Seq<char>)
    ensures
        has_match(p, name, None) <==> first_value(p, name) is Some,
        has_match(p, name, None) <==> values_named(p, name).len() > 0,
        first_value(p, name) matches Some(v) ==> v == values_named(p, name)[0],
{
    lemma_select_nonempty(p, name, None);
}

/// `has` with a value holds exactly when that value is among the values that
/// `get_all` gives; and then `has` without a value holds too.
pub proof fn law_has_value(p: Seq<Entry>, name: Seq<char>, value: Seq<char>)
    ensures
        has_match(p, name, Some(value)) <==> values_named(p, name).contains(value),
        has_match(p, name, Some(value)) ==> has_match(p, name, None),
{
    lemma_values_named_contains(p, name, value);
    if has_match(p, name, Some(value)) {
        let i = choose|i: int| 0 <= i < p.len() && entry_matches(#[trigger] p[i], name, Some(value));
        assert(entry_matches(p[i], name, None));
    }
}

/// After `append(name, value)`, `get_all(name)` ends with `value`, `has(name,
/// value)` holds, and every other name's pairs are unchanged.
pub proof fn law_append(p: Seq<Entry>, name: Seq<char>, value: Seq<char>, other: Seq<char>)
    ensures
        values_named(p.push((name, value)), name) == values_named(p, name).push(value),
        has_match(p.push((name, value)), name, Some(value)),
        other != name ==> matching(p.push((name, value)), other, None) == matching(p, other, None),
{
    lemma_select_push(p, (name, value), name, None, true);
    lemma_select_push(p, (name, value), other, None, true);
    assert(values_named(p.push((name, value)), name) =~= values_named(p, name).push(value));
    assert(entry_matches(p.push((name, value))[p.len() as int], name, Some(value)));
}

/// After `delete(name, value)`, no pair matches `name` (and `value`, where
/// given); the pairs of every other name, and the pairs of that name with
/// another value, are unchanged.
pub proof fn law_delete(
    p: Seq<Entry>,
    name: Seq<char>,
    value: Option<Seq<char>>,
    other: Seq<char>,
    other_value: Seq<char>,
)
    ensures
        !has_match(without(p, name, value), name, value),
        other != name ==> matching(without(p, name, value), other, None) == matching(p, other, None),
        value matches Some(v) && v != other_value ==> matching(
            without(p, name, value),
            name,
            Some(other_value),
        ) == matching(p, name, Some(other_value)),
{
    let w = without(p, name, value);
    lemma_select_members(p, name, value, false);
    if has_match(w, name, value) {
        let i = choose|i: int| 0 <= i < w.len() && entry_matches(#[trigger] w[i], name, value);
        assert(!entry_matches(w[i], name, value));
    }
    if other != name {
        lemma_without_other_name(p, name, value, other);
    }
    if value is Some && value->0 != other_value {
        assert forall|e: Entry|
            !(#[trigger] entry_matches(e, name, value) && entry_matches(e, name, Some(other_value))) by {
            if entry_matches(e, name, value) && entry_matches(e, name, Some(other_value)) {
                assert(value->0 == e.1);
            }
        }
        lemma_without_disjoint(p, name, value, name, Some(other_value));
    }
}

/// The pieces of `set_entry` where the name is present.
proof fn lemma_set_entry_present(p: Seq<Entry>, name: Seq<char>, value: Seq<char>, other: Seq<char>)
    requires
        has_match(p, name, None),
    ensures
        matching(set_entry(p, name, value), name, None) == seq![(name, value)],
        other != name ==> matching(set_entry(p, name, value), other, None) == matching(
            p,
            other,
            None,
        ),
        set_entry(p, name, value).len() == p.len() + 1 - matching(p, name, None).len(),
        is_first_named(set_entry(p, name, value), name, first_named(p, name)),
        forall|j: int|
            first_named(p, name) < j < set_entry(p, name, value).len() ==> (#[trigger] set_entry(
                p,
                name,
                value,
            )[j]).0 != name,
{
    lemma_first_named_exists(p, name);
    let i = first_named(p, name);
    let a = p.take(i);
    let rest = p.skip(i + 1);
    let w = without(rest, name, None);
    let q = set_entry(p, name, value);
    assert(q == a.push((name, value)) + w);
    assert(p =~= a.push(p[i]) + rest);
    assert forall|j: int| 0 <= j < a.len() implies (#[trigger] a[j]).0 != name by {
        assert(a[j] == p[j]);
    }
    lemma_select_none(a, name, None, true);
    lemma_select_add(a.push((name, value)), w, name, None, true);
    lemma_select_push(a, (name, value), name, None, true);
    lemma_without_name_none_left(rest, name);
    assert(matching(q, name, None) =~= seq![(name, value)]);
    if other != name {
        lemma_select_add(a.push((name, value)), w, other, None, true);
        lemma_select_push(a, (name, value), other, None, true);
        lemma_select_add(a.push(p[i]), rest, other, None, true);
        lemma_select_push(a, p[i], other, None, true);
        lemma_without_other_name(rest, name, None, other);
    }
    lemma_select_add(a.push(p[i]), rest, name, None, true);
    lemma_select_push(a, p[i], name, None, true);
    lemma_select_len(rest, name, None);
    lemma_select_members(rest, name, None, false);
    assert forall|j: int| i < j < q.len() implies (#[trigger] q[j]).0 != name by {
        assert(q[j] == w[j - i - 1]);
        assert(!entry_matches(w[j - i - 1], name, None));
    }
    assert forall|j: int| 0 <= j < i implies (#[trigger] q[j]).0 != name by {
        assert(q[j] == p[j]);
    }
}

/// After `set(name, value)`, `get_all(name)` gives `value` alone and `get(name)`
/// gives `value`; every other name's pairs are unchanged; the list loses
/// all but one of the pairs of that name, or gains one where there was none.
pub proof fn law_set(p: Seq<Entry>, name: Seq<char>, value: Seq<char>, other: Seq<char>)
    ensures
        values_named(set_entry(p, name, value), name) == seq![value],
        first_value(set_entry(p, name, value), name) == Some(value),
        other != name ==> matching(set_entry(p, name, value), other, None) == matching(
            p,
            other,
            None,
        ),
        set_entry(p, name, value).len() == if has_match(p, name, None) {
            p.len() + 1 - matching(p, name, None).len()
        } else {
            p.len() + 1int
        },
{
    if has_match(p, name, None) {
        lemma_set_entry_present(p, name, value, other);
    } else {
        assert forall|j: int| 0 <= j < p.len() implies (#[trigger] p[j]).0 != name by {
            assert(!entry_matches(p[j], name, None));
        }
        lemma_select_none(p, name, None, true);
        lemma_select_push(p, (name, value), name, None, true);
        lemma_select_push(p, (name, value), other, None, true);
    }
    assert(values_named(set_entry(p, name, value), name) =~= seq![value]);
}

/// Setting a name to a value a second time changes nothing.
pub proof fn law_set_idempotent(p: Seq<Entry>, name: Seq<char>, value: Seq<char>)
    ensures
        set_entry(set_entry(p, name, value), name, value) == set_entry(p, name, value),
{
    let q = set_entry(p, name, value);
    let i = if has_match(p, name, None) {
        lemma_set_entry_present(p, name, value, name);
        first_named(p, name)
    } else {
        assert forall|j: int| 0 <= j < p.len() implies (#[trigger] q[j]).0 != name by {
            assert(q[j] == p[j]);
            assert(!entry_matches(p[j], name, None));
        }
        p.len() as int
    };
    assert(is_first_named(q, name, i));
    assert(q[i] == (name, value));
    assert(entry_matches(q[i], name, None));
    lemma_first_named_unique(q, name, i);
    let rest = q.skip(i + 1);
    assert forall|j: int| 0 <= j < rest.len() implies entry_matches(#[trigger] rest[j], name, None)
        == false by {
        assert(rest[j] == q[i + 1 + j]);
    }
    lemma_select_all(rest, name, None, false);
    assert(q.take(i).push((name, value)) + rest =~= q);
}

/// Lists that agree name by name give the same `get_all`, `get` and `has` for
/// every name; `sort` therefore changes none of them.
pub proof fn law_same_per_name_lookups(
    a: Seq<Entry>,
    b: Seq<Entry>,
    name: Seq<char>,
    value: Seq<char>,
)
    requires
        same_per_name(a, b),
    ensures
        values_named(a, name) == values_named(b, name),
        first_value(a, name) == first_value(b, name),
        has_match(a, name, None) == has_match(b, name, None),
        has_match(a, name, Some(value)) == has_match(b, name, Some(value)),
{
    assert(matching(a, name, None) == matching(b, name, None));
    lemma_select_nonempty(a, name, None);
    lemma_select_nonempty(b, name, None);
    lemma_values_named_contains(a, name, value);
    lemma_values_named_contains(b, name, value);
}

/// In a sorted list, the name of the last entry comes no earlier than any other.
proof fn lemma_sorted_last_is_greatest(s: Seq<Entry>, n: Seq<char>)
    requires
        sorted_by_name(s),
        s.len() > 0,
        matching(s, n, None).len() > 0,
    ensures
        !name_lt(s.last().0, n),
{
    lemma_select_members(s, n, None, true);
    let e = matching(s, n, None)[0];
    assert(s.contains(e));
    let j = choose|j: int| 0 <= j < s.len() && s[j] == e;
    if j < s.len() - 1 {
        assert(!name_lt(s[s.len() - 1].0, s[j].0));
    } else {
        lemma_units_lt_irreflexive(utf16_units(n));
    }
}

/// A sorted list is fixed by its entries name by name: two sorted lists that
/// agree name by name are equal. So `sort` has exactly one possible result,
/// and sorting a sorted list changes nothing.
pub proof fn law_sorted_unique(a: Seq<Entry>, b: Seq<Entry>)
    requires
        sorted_by_name(a),
        sorted_by_name(b),
        same_per_name(a, b),
    ensures
        a == b,
    decreases a.len() + b.len(),
{
    if a.len() == 0 || b.len() == 0 {
        if a.len() > 0 {
            lemma_select_push(a.drop_last(), a.last(), a.last().0, None, true);
            assert(a.drop_last().push(a.last()) =~= a);
            assert(matching(b, a.last().0, None) == matching(a, a.last().0, None));
            lemma_select_none(b, a.last().0, None, true);
        }
        if b.len() > 0 {
            lemma_select_push(b.drop_last(), b.last(), b.last().0, None, true);
            assert(b.drop_last().push(b.last()) =~= b);
            assert(matching(a, b.last().0, None) == matching(b, b.last().0, None));
            lemma_select_none(a, b.last().0, None, true);
        }
        assert(a =~= b);
    } else {
        let na = a.last().0;
        let nb = b.last().0;
        assert(a.drop_last().push(a.last()) =~= a);
        assert(b.drop_last().push(b.last()) =~= b);
        lemma_select_push(a.drop_last(), a.last(), na, None, true);
        lemma_select_push(b.drop_last(), b.last(), nb, None, true);
        assert(matching(b, na, None) == matching(a, na, None));
        assert(matching(a, nb, None) == matching(b, nb, None));
        lemma_sorted_last_is_greatest(b, na);
        lemma_sorted_last_is_greatest(a, nb);
        lemma_units_lt_total(utf16_units(na), utf16_units(nb));
        if utf16_units(na) == utf16_units(nb) {
            lemma_same_units(na, nb);
        }
        let n = na;
        assert(matching(a, n, None).last() == a.last());
        assert(matching(b, n, None).last() == b.last());
        let a2 = a.drop_last();
        let b2 = b.drop_last();
        assert forall|k: Seq<char>| #[trigger] matching(a2, k, None) == matching(b2, k, None) by {
            lemma_select_push(a2, a.last(), k, None, true);
            lemma_select_push(b2, b.last(), k, None, true);
            assert(matching(a, k, None) == matching(b, k, None));
            if k == n {
                assert(matching(a2, k, None) =~= matching(a, k, None).drop_last());
                assert(matching(b2, k, None) =~= matching(b, k, None).drop_last());
            }
        }
        assert forall|i: int, j: int| 0 <= i < j < a2.len() implies !name_lt(
            #[trigger] a2[j].0,
            #[trigger] a2[i].0,
        ) by {
            assert(a2[i] == a[i] && a2[j] == a[j]);
        }
        assert forall|i: int, j: int| 0 <= i < j < b2.len() implies !name_lt(
            #[trigger] b2[j].0,
            #[trigger] b2[i].0,
        ) by {
            assert(b2[i] == b[i] && b2[j] == b[j]);
        }
        law_sorted_unique(a2, b2);
        assert(a =~= b);
    }
}

/// A list made from a record has no name twice.
pub proof fn law_record_names_distinct(p: Seq<Entry>)
    requires
        strictly_sorted_by_name(p),
    ensures
        forall|i: int, j: int| 0 <= i < p.len() && 0 <= j < p.len() && i != j ==> p[i].0 != p[j].0,
{
    assert forall|i: int, j: int| 0 <= i < p.len() && 0 <= j < p.len() && i != j implies p[i].0
        != p[j].0 by {
        if i < j {
            assert(name_bytes_lt(p[i].0, p[j].0));
        } else {
            assert(name_bytes_lt(p[j].0, p[i].0));
        }
        lemma_bytes_lt_irreflexive(encode_utf8(p[i].0));
    }
}

} // verus!
