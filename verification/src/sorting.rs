//! Ordering a pair list by name: stable sorting, and the ordered-map form of
//! record pairs (one pair per name, the last one given).
use vstd::prelude::*;
use crate::model::{Entry, entries_view, matching, lemma_select_add, lemma_select_push, lemma_select_none};
use crate::order::{
    name_lt, name_less, name_bytes_lt, name_bytes_less, units_lt, utf16_units,
    lemma_units_lt_asymmetric, lemma_units_lt_irreflexive, lemma_units_lt_total,
    lemma_units_lt_transitive, lemma_bytes_lt_irreflexive, lemma_bytes_lt_total,
    lemma_bytes_lt_transitive, lemma_same_encoding,
};
use vstd::utf8::encode_utf8;

verus! {

/// No entry is followed by one whose name comes strictly before its own in
/// UTF-16 code-unit order.
pub open spec fn sorted_by_name(p: Seq<Entry>) -> bool {
    forall|i: int, j: int| 0 <= i < j < p.len() ==> !name_lt(#[trigger] p[j].0, #[trigger] p[i].0)
}

/// For every name, the entries of that name are the same, in the same order.
pub open spec fn same_per_name(a: Seq<Entry>, b: Seq<Entry>) -> bool {
    forall|n: Seq<char>| #[trigger] matching(a, n, None) == matching(b, n, None)
}

/// A copy of a pair of strings.
pub(crate) fn clone_pair(e: &(String, String)) -> (r: (String, String))
    ensures
        r == *e,
{
    (e.0.clone(), e.1.clone())
}

/// Inserting `x` where everything before it does not come after it, and
/// everything from there on comes strictly after it, keeps a list sorted.
proof fn lemma_insert_sorted(s: Seq<Entry>, x: Entry, p: int)
    requires
        sorted_by_name(s),
        0 <= p <= s.len(),
        forall|q: int| p <= q < s.len() ==> name_lt(x.0, #[trigger] s[q].0),
        p > 0 ==> !name_lt(x.0, s[p - 1].0),
    ensures
        sorted_by_name(s.insert(p, x)),
{
    let t = s.insert(p, x);
    assert forall|i: int, j: int| 0 <= i < j < t.len() implies !name_lt(
        #[trigger] t[j].0,
        #[trigger] t[i].0,
    ) by {
        if i == p {
            assert(t[j] == s[j - 1]);
            lemma_units_lt_asymmetric(utf16_units(x.0), utf16_units(s[j - 1].0));
        } else if j == p {
            assert(t[i] == s[i]);
            let bx = utf16_units(x.0);
            let bi = utf16_units(s[i].0);
            let bl = utf16_units(s[p - 1].0);
            if units_lt(bx, bi) {
                if i < p - 1 {
                    assert(!name_lt(s[p - 1].0, s[i].0));
                    lemma_units_lt_total(bi, bl);
                    if units_lt(bi, bl) {
                        lemma_units_lt_transitive(bx, bi, bl);
                    }
                }
            }
        } else {
            let si = if i < p { i } else { i - 1 };
            let sj = if j < p { j } else { j - 1 };
            assert(t[i] == s[si]);
            assert(t[j] == s[sj]);
        }
    }
}

/// Inserting `x` before entries whose names differ from its own adds `x` at
/// the end of the entries of its name and changes no other name's.
proof fn lemma_insert_matching(s: Seq<Entry>, x: Entry, p: int, n: Seq<char>)
    requires
        0 <= p <= s.len(),
        forall|q: int| p <= q < s.len() ==> (#[trigger] s[q]).0 != x.0,
    ensures
        matching(s.insert(p, x), n, None) == if x.0 == n {
            matching(s, n, None).push(x)
        } else {
            matching(s, n, None)
        },
{
    let a = s.take(p);
    let b = s.skip(p);
    assert(s.insert(p, x) =~= a.push(x) + b);
    assert(s =~= a + b);
    lemma_select_add(a.push(x), b, n, None, true);
    lemma_select_add(a, b, n, None, true);
    lemma_select_push(a, x, n, None, true);
    if x.0 == n {
        assert forall|q: int| 0 <= q < b.len() implies (#[trigger] b[q]).0 != n by {
            assert(b[q] == s[p + q]);
        }
        lemma_select_none(b, n, None, true);
        assert(matching(a, n, None).push(x) + matching(b, n, None) =~= (matching(a, n, None)
            + matching(b, n, None)).push(x));
    }
}

/// A copy of `pairs`, stably sorted by name: for every name, its pairs keep
/// their relative order.
pub(crate) fn stable_sort_by_name(pairs: &Vec<(String, String)>) -> (r: Vec<(String, String)>)
    ensures
        entries_view(r@).len() == entries_view(pairs@).len(),
        sorted_by_name(entries_view(r@)),
        same_per_name(entries_view(r@), entries_view(pairs@)),
{
    let ghost src = entries_view(pairs@);
    let mut out: Vec<(String, String)> = Vec::new();
    let mut i: usize = 0;
    proof {
        assert forall|n: Seq<char>| #[trigger]
            matching(entries_view(out@), n, None) == matching(src.take(0), n, None) by {
            assert(entries_view(out@) =~= src.take(0));
        }
    }
    while i < pairs.len()
        invariant
            src == entries_view(pairs@),
            i <= pairs@.len(),
            out@.len() == i,
            sorted_by_name(entries_view(out@)),
            forall|n: Seq<char>| #[trigger]
                matching(entries_view(out@), n, None) == matching(src.take(i as int), n, None),
        decreases pairs@.len() - i,
    {
        let x = clone_pair(&pairs[i]);
        let ghost xv: Entry = (x.0@, x.1@);
        let ghost ov = entries_view(out@);
        let mut p: usize = out.len();
        while p > 0 && name_less(x.0.as_str(), out[p - 1].0.as_str())
            invariant
                ov == entries_view(out@),
                xv == (x.0@, x.1@),
                p <= out@.len(),
                forall|q: int| p <= q < ov.len() ==> name_lt(xv.0, #[trigger] ov[q].0),
            decreases p,
        {
            p = p - 1;
        }
        let ghost before = out@;
        out.insert(p, x);
        proof {
            assert(entries_view(out@) =~= ov.insert(p as int, xv));
            lemma_insert_sorted(ov, xv, p as int);
            assert(src.take(i + 1) =~= src.take(i as int).push(src[i as int]));
            assert(src[i as int] == xv);
            assert forall|q: int| p <= q < ov.len() implies (#[trigger] ov[q]).0 != xv.0 by {
                lemma_units_lt_irreflexive(utf16_units(xv.0));
            }
            assert forall|n: Seq<char>| #[trigger]
                matching(entries_view(out@), n, None) == matching(src.take(i + 1), n, None) by {
                lemma_insert_matching(ov, xv, p as int, n);
                lemma_select_push(src.take(i as int), xv, n, None, true);
            }
        }
        i = i + 1;
    }
    proof {
        assert(src.take(i as int) =~= src);
    }
    out
}

/// Every entry's name comes strictly before the names of the entries after it,
/// in byte order.
pub open spec fn strictly_sorted_by_name(p: Seq<Entry>) -> bool {
    forall|i: int, j: int| 0 <= i < j < p.len() ==> name_bytes_lt(#[trigger] p[i].0, #[trigger] p[j].0)
}

/// The last entry of `s` alone, or nothing where `s` is empty.
pub open spec fn last_only(s: Seq<Entry>) -> Seq<Entry> {
    if s.len() == 0 {
        s
    } else {
        seq![s.last()]
    }
}

/// Where every name of a list comes strictly before or strictly after `n`,
/// no entry has the name `n`.
proof fn lemma_no_name_in(s: Seq<Entry>, n: Seq<char>)
    requires
        forall|q: int| 0 <= q < s.len() ==> name_bytes_lt(n, #[trigger] s[q].0) || name_bytes_lt(s[q].0, n),
    ensures
        matching(s, n, None) == Seq::<Entry>::empty(),
{
    assert forall|q: int| 0 <= q < s.len() implies (#[trigger] s[q]).0 != n by {
        lemma_bytes_lt_irreflexive(encode_utf8(n));
    }
    lemma_select_none(s, n, None, true);
}

/// Replacing the entry of a strictly sorted list that has the name of `xv`
/// by `xv` keeps each name's entries the last one of its name in the source
/// extended by `xv`.
proof fn lemma_replace_same_name(ov: Seq<Entry>, xv: Entry, r: int, prefix: Seq<Entry>, n: Seq<char>)
    requires
        0 <= r < ov.len(),
        ov[r].0 == xv.0,
        strictly_sorted_by_name(ov),
        forall|k: Seq<char>| #[trigger] matching(ov, k, None) == last_only(matching(prefix, k, None)),
    ensures
        matching(ov.update(r, xv), n, None) == last_only(matching(prefix.push(xv), n, None)),
{
    let m = xv.0;
    let nv = ov.update(r, xv);
    lemma_select_push(prefix, xv, n, None, true);
    let a = ov.take(r);
    let b = ov.skip(r + 1);
    assert(ov =~= a.push(ov[r]) + b);
    assert(nv =~= a.push(xv) + b);
    lemma_select_add(a.push(ov[r]), b, n, None, true);
    lemma_select_add(a.push(xv), b, n, None, true);
    lemma_select_push(a, ov[r], n, None, true);
    lemma_select_push(a, xv, n, None, true);
    assert(matching(ov, n, None) == last_only(matching(prefix, n, None)));
    if n == m {
        assert forall|q: int| 0 <= q < a.len() implies name_bytes_lt(n, #[trigger] a[q].0) || name_bytes_lt(
            a[q].0,
            n,
        ) by {
            assert(a[q] == ov[q]);
            assert(name_bytes_lt(ov[q].0, ov[r].0));
        }
        assert forall|q: int| 0 <= q < b.len() implies name_bytes_lt(n, #[trigger] b[q].0) || name_bytes_lt(
            b[q].0,
            n,
        ) by {
            assert(b[q] == ov[r + 1 + q]);
            assert(name_bytes_lt(ov[r].0, ov[r + 1 + q].0));
        }
        lemma_no_name_in(a, n);
        lemma_no_name_in(b, n);
        assert(matching(nv, n, None) =~= seq![xv]);
        assert(last_only(matching(prefix.push(xv), n, None)) =~= seq![xv]);
    }
}

/// Inserting an entry whose name is new to a list, before the entries whose
/// names come after it, keeps each name's entries the last one of its name
/// in the source extended by that entry.
proof fn lemma_insert_new_name(ov: Seq<Entry>, xv: Entry, p: int, prefix: Seq<Entry>, n: Seq<char>)
    requires
        0 <= p <= ov.len(),
        forall|q: int| p <= q < ov.len() ==> name_bytes_lt(xv.0, #[trigger] ov[q].0),
        matching(ov, xv.0, None) == Seq::<Entry>::empty(),
        forall|k: Seq<char>| #[trigger] matching(ov, k, None) == last_only(matching(prefix, k, None)),
    ensures
        matching(ov.insert(p, xv), n, None) == last_only(matching(prefix.push(xv), n, None)),
{
    assert forall|q: int| p <= q < ov.len() implies (#[trigger] ov[q]).0 != xv.0 by {
        lemma_bytes_lt_irreflexive(encode_utf8(xv.0));
    }
    lemma_insert_matching(ov, xv, p, n);
    lemma_select_push(prefix, xv, n, None, true);
    assert(matching(ov, n, None) == last_only(matching(prefix, n, None)));
    assert(matching(ov, xv.0, None) == last_only(matching(prefix, xv.0, None)));
    if n == xv.0 {
        assert(matching(prefix, n, None).len() == 0);
        assert(matching(prefix.push(xv), n, None) =~= seq![xv]);
        assert(matching(ov.insert(p, xv), n, None) =~= seq![xv]);
        assert(last_only(matching(prefix.push(xv), n, None)) =~= seq![xv]);
    }
}

/// A copy of `pairs` holding, for each name, only the last pair of that name,
/// with the names in strictly increasing order: what collecting the pairs
/// into an ordered map, later pairs replacing earlier ones, gives.
pub(crate) fn by_name_last_wins(pairs: &Vec<(String, String)>) -> (r: Vec<(String, String)>)
    ensures
        strictly_sorted_by_name(entries_view(r@)),
        forall|n: Seq<char>| #[trigger]
            matching(entries_view(r@), n, None) == last_only(
                matching(entries_view(pairs@), n, None),
            ),
{
    let ghost src = entries_view(pairs@);
    let mut out: Vec<(String, String)> = Vec::new();
    let mut i: usize = 0;
    proof {
        assert forall|n: Seq<char>| #[trigger]
            matching(entries_view(out@), n, None) == last_only(matching(src.take(0), n, None)) by {
            assert(entries_view(out@) =~= src.take(0));
        }
    }
    while i < pairs.len()
        invariant
            src == entries_view(pairs@),
            i <= pairs@.len(),
            strictly_sorted_by_name(entries_view(out@)),
            forall|n: Seq<char>| #[trigger]
                matching(entries_view(out@), n, None) == last_only(
                    matching(src.take(i as int), n, None),
                ),
        decreases pairs@.len() - i,
    {
        let x = clone_pair(&pairs[i]);
        let ghost xv: Entry = (x.0@, x.1@);
        let ghost m = xv.0;
        let ghost ov = entries_view(out@);
        let mut p: usize = out.len();
        while p > 0 && name_bytes_less(x.0.as_str(), out[p - 1].0.as_str())
            invariant
                ov == entries_view(out@),
                xv == (x.0@, x.1@),
                p <= out@.len(),
                forall|q: int| p <= q < ov.len() ==> name_bytes_lt(xv.0, #[trigger] ov[q].0),
            decreases p,
        {
            p = p - 1;
        }
        proof {
            assert(src.take(i + 1) =~= src.take(i as int).push(src[i as int]));
            assert(src[i as int] == xv);
        }
        if p > 0 && out[p - 1].0 == x.0 {
            let r: usize = p - 1;
            out.set(r, x);
            proof {
                let nv = entries_view(out@);
                assert(nv =~= ov.update(r as int, xv));
                // strictly sorted: the replaced entry keeps its name
                assert forall|a: int, b: int| 0 <= a < b < nv.len() implies name_bytes_lt(
                    #[trigger] nv[a].0,
                    #[trigger] nv[b].0,
                ) by {
                    assert(nv[a].0 == ov[a].0);
                    assert(nv[b].0 == ov[b].0);
                }
                assert(forall|k: Seq<char>| #[trigger] matching(ov, k, None) == last_only(matching(src.take(i as int), k, None)));
                assert forall|n: Seq<char>| #[trigger]
                    matching(nv, n, None) == last_only(matching(src.take(i + 1), n, None)) by {
                    lemma_replace_same_name(ov, xv, r as int, src.take(i as int), n);
                }
            }
        } else {
            out.insert(p, x);
            proof {
                let nv = entries_view(out@);
                assert(nv =~= ov.insert(p as int, xv));
                // names before `p` come strictly before `m`
                if p > 0 {
                    let bl = encode_utf8(ov[p - 1].0);
                    let bx = encode_utf8(m);
                    if bl == bx {
                        lemma_same_encoding(ov[p - 1].0, m);
                    }
                    lemma_bytes_lt_total(bl, bx);
                }
                assert forall|q: int| 0 <= q < p implies name_bytes_lt(#[trigger] ov[q].0, m) by {
                    if q < p - 1 {
                        lemma_bytes_lt_transitive(
                            encode_utf8(ov[q].0),
                            encode_utf8(ov[p - 1].0),
                            encode_utf8(m),
                        );
                    }
                }
                assert forall|a: int, b: int| 0 <= a < b < nv.len() implies name_bytes_lt(
                    #[trigger] nv[a].0,
                    #[trigger] nv[b].0,
                ) by {
                    if a == p {
                        assert(nv[b] == ov[b - 1]);
                    } else if b == p {
                        assert(nv[a] == ov[a]);
                    } else {
                        let sa = if a < p { a } else { a - 1 };
                        let sb = if b < p { b } else { b - 1 };
                        assert(nv[a] == ov[sa]);
                        assert(nv[b] == ov[sb]);
                    }
                }
                assert forall|q: int| 0 <= q < ov.len() implies name_bytes_lt(m, #[trigger] ov[q].0)
                    || name_bytes_lt(ov[q].0, m) by {}
                lemma_no_name_in(ov, m);
                assert forall|n: Seq<char>| #[trigger]
                    matching(nv, n, None) == last_only(matching(src.take(i + 1), n, None)) by {
                    lemma_insert_new_name(ov, xv, p as int, src.take(i as int), n);
                }
            }
        }
        i = i + 1;
    }
    proof {
        assert(src.take(i as int) =~= src);
    }
    out
}

} // verus!
