//! What the orders, encodings and init conversions that the contracts use
//! mean, stated from their inputs: each law pins its notion down for every
//! input.
use vstd::prelude::*;
use crate::model::{
    Entry, entry_matches, first_value, has_match, is_first_named, matching, select, set_entry,
    values_named, lemma_first_named_exists, lemma_first_named_unique, lemma_select_add,
    lemma_select_none, lemma_select_push,
};
use crate::order::{bytes_lt, units_lt, utf16_units, char_units, name_lt};
use crate::search_params::{all_pairs, sequence_entries, trim_leading_question_mark};
use crate::sorting::{last_only, same_per_name, sorted_by_name, strictly_sorted_by_name};
use crate::order::name_bytes_lt;

verus! {

/// Code-unit order is lexicographic from the first unit: where the first
/// units differ, the smaller first unit comes first; a common beginning does
/// not change the comparison; and a proper prefix comes before the longer
/// sequence.
pub proof fn law_units_order(a: Seq<u16>, b: Seq<u16>, c: Seq<u16>, s: Seq<u16>)
    ensures
        a.len() > 0 && b.len() > 0 && a[0] != b[0] ==> (units_lt(a, b) <==> a[0] < b[0]),
        units_lt(c + a, c + b) == units_lt(a, b),
        s.len() > 0 ==> units_lt(a, a + s) && !units_lt(a + s, a),
        !units_lt(a, a),
    decreases c.len() + a.len(),
{
    if c.len() > 0 {
        law_units_order(a, b, c.drop_first(), s);
        assert((c + a).drop_first() =~= c.drop_first() + a);
        assert((c + b).drop_first() =~= c.drop_first() + b);
        assert((c + a)[0] == c[0] && (c + b)[0] == c[0]);
    } else {
        assert(c + a =~= a);
        assert(c + b =~= b);
        if a.len() > 0 {
            law_units_order(a.drop_first(), b, c, s);
            assert((a + s).drop_first() =~= a.drop_first() + s);
            assert((a + s)[0] == a[0]);
        } else {
            assert(a + s =~= s);
        }
    }
}

/// Byte order is lexicographic from the first byte, as `String`'s `Ord`
/// (and so a `BTreeMap<String, _>`) orders: where the first bytes differ,
/// the smaller first byte comes first; a common beginning does not change the
/// comparison; and a proper prefix comes before the longer sequence.
pub proof fn law_bytes_order(a: Seq<u8>, b: Seq<u8>, c: Seq<u8>, s: Seq<u8>)
    ensures
        a.len() > 0 && b.len() > 0 && a[0] != b[0] ==> (bytes_lt(a, b) <==> a[0] < b[0]),
        bytes_lt(c + a, c + b) == bytes_lt(a, b),
        s.len() > 0 ==> bytes_lt(a, a + s) && !bytes_lt(a + s, a),
        !bytes_lt(a, a),
    decreases c.len() + a.len(),
{
    if c.len() > 0 {
        law_bytes_order(a, b, c.drop_first(), s);
        assert((c + a).drop_first() =~= c.drop_first() + a);
        assert((c + b).drop_first() =~= c.drop_first() + b);
        assert((c + a)[0] == c[0] && (c + b)[0] == c[0]);
    } else {
        assert(c + a =~= a);
        assert(c + b =~= b);
        if a.len() > 0 {
            law_bytes_order(a.drop_first(), b, c, s);
            assert((a + s).drop_first() =~= a.drop_first() + s);
            assert((a + s)[0] == a[0]);
        } else {
            assert(a + s =~= s);
        }
    }
}

/// In the record order, a name comes before every longer name that begins
/// with it; the empty name comes first of all.
pub proof fn law_record_order_prefix(a: Seq<char>, s: Seq<char>)
    requires
        s.len() > 0,
    ensures
        name_bytes_lt(a, a + s),
        !name_bytes_lt(a + s, a),
{
    broadcast use vstd::utf8::encode_utf8_valid_utf8;

    let ea = vstd::utf8::encode_utf8(a);
    let es = vstd::utf8::encode_utf8(s);
    lemma_encode_utf8_add(a, s);
    lemma_encode_utf8_nonempty(s);
    law_bytes_order(ea, ea, ea, es);
}

proof fn lemma_encode_utf8_add(a: Seq<char>, b: Seq<char>)
    ensures
        vstd::utf8::encode_utf8(a + b) == vstd::utf8::encode_utf8(a) + vstd::utf8::encode_utf8(b),
    decreases a.len(),
{
    if a.len() > 0 {
        lemma_encode_utf8_add(a.drop_first(), b);
        assert((a + b).drop_first() =~= a.drop_first() + b);
        assert((a + b)[0] == a[0]);
        let e0 = vstd::utf8::encode_scalar(a[0] as u32);
        assert(e0 + (vstd::utf8::encode_utf8(a.drop_first()) + vstd::utf8::encode_utf8(b)) =~= (
        e0 + vstd::utf8::encode_utf8(a.drop_first())) + vstd::utf8::encode_utf8(b));
    } else {
        assert(a + b =~= b);
        assert(vstd::utf8::encode_utf8(a) =~= Seq::<u8>::empty());
        assert(Seq::<u8>::empty() + vstd::utf8::encode_utf8(b) =~= vstd::utf8::encode_utf8(b));
    }
}

proof fn lemma_encode_utf8_nonempty(s: Seq<char>)
    requires
        s.len() > 0,
    ensures
        vstd::utf8::encode_utf8(s).len() > 0,
{
    vstd::utf8::encode_utf8_first_scalar(s);
}

/// The UTF-16 encoding of a name is the concatenation of its characters'
/// encodings; a character below U+10000 is the one unit of its own value; any
/// other is a high surrogate followed by a low surrogate that together give
/// back the character.
pub proof fn law_utf16_units(a: Seq<char>, b: Seq<char>, c: char)
    ensures
        utf16_units(Seq::<char>::empty()) == Seq::<u16>::empty(),
        utf16_units(a + b) == utf16_units(a) + utf16_units(b),
        (c as u32) < 0x10000 ==> utf16_units(seq![c]) == seq![(c as u32) as u16],
        (c as u32) >= 0x10000 ==> {
            let u = utf16_units(seq![c]);
            &&& u.len() == 2
            &&& 0xD800 <= u[0] < 0xDC00
            &&& 0xDC00 <= u[1] < 0xE000
            &&& 0x10000 + (u[0] - 0xD800) * 0x400 + (u[1] - 0xDC00) == c as u32
        },
    decreases a.len(),
{
    assert(seq![c].drop_first() =~= Seq::<char>::empty());
    assert(seq![c][0] == c);
    assert(utf16_units(Seq::<char>::empty()) =~= Seq::<u16>::empty());
    assert(utf16_units(seq![c]) =~= char_units(c) + Seq::<u16>::empty());
    assert(char_units(c) + Seq::<u16>::empty() =~= char_units(c));
    if a.len() > 0 {
        law_utf16_units(a.drop_first(), b, c);
        assert((a + b).drop_first() =~= a.drop_first() + b);
        assert((a + b)[0] == a[0]);
        assert(char_units(a[0]) + (utf16_units(a.drop_first()) + utf16_units(b)) =~= (char_units(
            a[0],
        ) + utf16_units(a.drop_first())) + utf16_units(b));
    } else {
        assert(a + b =~= b);
        assert(Seq::<u16>::empty() + utf16_units(b) =~= utf16_units(b));
    }
    let v = c as u32;
    if v >= 0x10000 {
        broadcast use vstd::utf8::char_is_scalar;

        assert(vstd::utf8::is_scalar(v));
        let x = (v - 0x10000) as int;
        assert(x / 0x400 < 0x400 && x % 0x400 < 0x400 && (x / 0x400) * 0x400 + x % 0x400 == x)
            by (nonlinear_arith)
            requires
                0 <= x <= 0xFFFFF,
        ;
    }
}

/// Code-unit order on names: "ab" comes before "ba", and "a" before "ab".
pub proof fn law_name_order_examples()
    ensures
        name_lt(seq!['a', 'b'], seq!['b', 'a']),
        !name_lt(seq!['b', 'a'], seq!['a', 'b']),
        name_lt(seq!['a'], seq!['a', 'b']),
{
    let ab = seq!['a', 'b'];
    let ba = seq!['b', 'a'];
    law_utf16_units(seq!['a'], seq!['b'], 'a');
    law_utf16_units(seq!['b'], seq!['a'], 'b');
    law_utf16_units(seq!['b'], Seq::<char>::empty(), 'b');
    law_utf16_units(seq!['a'], Seq::<char>::empty(), 'a');
    assert(seq!['a'] + seq!['b'] =~= ab);
    assert(seq!['b'] + seq!['a'] =~= ba);
    let ua = utf16_units(seq!['a']);
    let ub = utf16_units(seq!['b']);
    assert(ua =~= seq![0x61u16]);
    assert(ub =~= seq![0x62u16]);
    law_units_order(ua + ub, ub + ua, Seq::empty(), ub);
    law_units_order(ub + ua, ua + ub, Seq::empty(), ub);
    law_units_order(ua, ua, Seq::empty(), ub);
    assert((ua + ub)[0] == 0x61u16);
    assert((ub + ua)[0] == 0x62u16);
}

/// A sorted list has its names in ascending code-unit order: no name comes
/// strictly before the name of an earlier pair.
pub proof fn law_sorted_means_ascending(p: Seq<Entry>, i: int, j: int)
    requires
        sorted_by_name(p),
        0 <= i < j < p.len(),
    ensures
        !name_lt(p[j].0, p[i].0),
{
}

/// A list is sorted when each pair's name does not come strictly before the
/// name of the pair before it.
pub proof fn law_sorted_from_neighbours(p: Seq<Entry>)
    requires
        forall|k: int| 0 < k < p.len() ==> !name_lt(#[trigger] p[k].0, p[k - 1].0),
    ensures
        sorted_by_name(p),
    decreases p.len(),
{
    if p.len() > 1 {
        let q = p.drop_last();
        assert forall|k: int| 0 < k < q.len() implies !name_lt(#[trigger] q[k].0, q[k - 1].0) by {
            assert(q[k] == p[k] && q[k - 1] == p[k - 1]);
        }
        law_sorted_from_neighbours(q);
        let n = p.len() - 1;
        assert forall|i: int, j: int| 0 <= i < j < p.len() implies !name_lt(
            #[trigger] p[j].0,
            #[trigger] p[i].0,
        ) by {
            if j < n {
                assert(q[i] == p[i] && q[j] == p[j]);
            } else if i < n - 1 {
                assert(q[i] == p[i] && q[n - 1] == p[n - 1]);
                assert(!name_lt(p[n - 1].0, p[i].0));
                crate::order::lemma_units_lt_total(utf16_units(p[i].0), utf16_units(p[n - 1].0));
                if name_lt(p[n].0, p[i].0) {
                    if name_lt(p[i].0, p[n - 1].0) {
                        crate::order::lemma_units_lt_transitive(
                            utf16_units(p[n].0),
                            utf16_units(p[i].0),
                            utf16_units(p[n - 1].0),
                        );
                    }
                }
            }
        }
    }
}

/// Lists agree name by name exactly when they have, for every name, the same
/// pairs of that name in the same order.
pub proof fn law_same_per_name_meaning(a: Seq<Entry>, b: Seq<Entry>, n: Seq<char>)
    requires
        same_per_name(a, b),
    ensures
        matching(a, n, None) == matching(b, n, None),
{
}

/// A strictly sorted list has its names in strictly ascending byte order.
pub proof fn law_strictly_sorted_means_ascending(p: Seq<Entry>, i: int, j: int)
    requires
        strictly_sorted_by_name(p),
        0 <= i < j < p.len(),
    ensures
        name_bytes_lt(p[i].0, p[j].0),
{
}

/// Of a list of pairs of one name, a record keeps the last alone.
pub proof fn law_last_only(s: Seq<Entry>, e: Entry)
    ensures
        last_only(Seq::<Entry>::empty()) == Seq::<Entry>::empty(),
        last_only(s.push(e)) == seq![e],
{
    assert(last_only(s.push(e)) =~= seq![e]);
}

/// A pair matches a name, and a value where one is given, exactly when its
/// name is that name and, where a value is given, its value is that value.
pub proof fn law_entry_matches(n: Seq<char>, v: Seq<char>, m: Seq<char>, w: Seq<char>)
    ensures
        entry_matches((n, v), n, None),
        entry_matches((n, v), n, Some(v)),
        m != n ==> !entry_matches((m, v), n, None) && !entry_matches((m, v), n, Some(v)),
        w != v ==> !entry_matches((n, v), n, Some(w)),
{
}

/// Selection keeps the pairs whose matching is the one asked for, in their
/// order: nothing from nothing, a single pair where its matching is the one
/// asked for, and the selections of two parts one after the other.
pub proof fn law_select_keeps_order(
    a: Seq<Entry>,
    b: Seq<Entry>,
    e: Entry,
    name: Seq<char>,
    value: Option<Seq<char>>,
    keep: bool,
)
    ensures
        select(Seq::<Entry>::empty(), name, value, keep) == Seq::<Entry>::empty(),
        select(seq![e], name, value, keep) == if entry_matches(e, name, value) == keep {
            seq![e]
        } else {
            Seq::<Entry>::empty()
        },
        select(a + b, name, value, keep) == select(a, name, value, keep) + select(
            b,
            name,
            value,
            keep,
        ),
{
    lemma_select_add(a, b, name, value, keep);
    lemma_select_push(Seq::<Entry>::empty(), e, name, value, keep);
    assert(Seq::<Entry>::empty().push(e) =~= seq![e]);
    assert(Seq::<Entry>::empty().push(e) =~= seq![e]);
}

/// `get` gives the value of the first pair of the name, and nothing where no
/// pair has the name.
pub proof fn law_first_value(p: Seq<Entry>, name: Seq<char>, i: int)
    ensures
        is_first_named(p, name, i) ==> first_value(p, name) == Some(p[i].1),
        !has_match(p, name, None) ==> first_value(p, name) is None,
{
    crate::model::lemma_select_nonempty(p, name, None);
    if is_first_named(p, name, i) {
        assert forall|j: int| 0 <= j < i implies (#[trigger] p.take(i)[j]).0 != name by {
            assert(p.take(i)[j] == p[j]);
        }
        lemma_select_none(p.take(i), name, None, true);
        assert(p =~= p.take(i).push(p[i]) + p.skip(i + 1));
        lemma_select_add(p.take(i).push(p[i]), p.skip(i + 1), name, None, true);
        lemma_select_push(p.take(i), p[i], name, None, true);
        assert(matching(p, name, None)[0] == p[i]);
        assert(values_named(p, name)[0] == p[i].1);
    }
}

/// `set` keeps the pairs before the first pair of the name, and puts the new
/// value in that first pair's place.
pub proof fn law_set_in_place(p: Seq<Entry>, name: Seq<char>, value: Seq<char>, i: int)
    requires
        is_first_named(p, name, i),
    ensures
        set_entry(p, name, value).take(i) == p.take(i),
        set_entry(p, name, value)[i] == (name, value),
{
    assert(entry_matches(p[i], name, None));
    lemma_first_named_unique(p, name, i);
    let q = set_entry(p, name, value);
    assert(q.take(i) =~= p.take(i));
}

/// A sequence init of two-element members gives the members in their order:
/// the i-th pair is the i-th member's two strings.
pub proof fn law_sequence_entries(members: Seq<Vec<String>>, i: int)
    requires
        all_pairs(members),
        0 <= i < members.len(),
    ensures
        sequence_entries(members).len() == members.len(),
        sequence_entries(members)[i] == (members[i]@[0]@, members[i]@[1]@),
{
}

/// A sequence init is refused exactly when some member does not have two
/// elements.
pub proof fn law_all_pairs(members: Seq<Vec<String>>, i: int)
    ensures
        all_pairs(members) && 0 <= i < members.len() ==> members[i]@.len() == 2,
        0 <= i < members.len() && members[i]@.len() != 2 ==> !all_pairs(members),
{
}

/// Only a leading `?` is removed from a text init, and only one: text that
/// does not begin with `?` is parsed as it is, and text that does is parsed
/// without that first character.
pub proof fn law_trim_leading_question_mark(s: Seq<char>, t: Seq<char>)
    ensures
        !(s.len() > 0 && s[0] == '?') ==> trim_leading_question_mark(s) == s,
        s.len() > 0 && s[0] == '?' ==> seq!['?'] + trim_leading_question_mark(s) == s,
        trim_leading_question_mark(seq!['?'] + t) == t,
{
    if s.len() > 0 && s[0] == '?' {
        assert(seq!['?'] + s.drop_first() =~= s);
    }
    assert((seq!['?'] + t).drop_first() =~= t);
}

} // verus!
