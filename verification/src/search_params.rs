//! `UrlSearchParams`: an ordered list of name/value pairs.
use vstd::prelude::*;
use crate::model::{
    Entry, entries_view, entry_matches, first_value, has_match, lemma_select_add, lemma_select_none,
    lemma_select_push, matching, opt_view, strings_view, values_named, without, set_entry,
    is_first_named, lemma_first_named_unique,
};
use crate::sorting::{
    by_name_last_wins, clone_pair, last_only, same_per_name, sorted_by_name, stable_sort_by_name,
    strictly_sorted_by_name,
};
use crate::encoding::{form_urlencoded_parse, form_urlencoded_serialize, parse_query, serialize_pairs};

verus! {

/// What a list is made from.
pub enum SearchParamsInit<'a> {
    /// No initial value (`undefined` or `null`): an empty list.
    Empty,
    /// Another list, which is copied.
    Params(&'a UrlSearchParams),
    /// A sequence of `[name, value]` sequences.
    Sequence(Vec<Vec<String>>),
    /// A record: its property names with their string values.
    Record(Vec<(String, String)>),
    /// A string in the `application/x-www-form-urlencoded` syntax; a leading
    /// `?` is stripped.
    Text(String),
    /// A value that is none of the above and has no string form.
    Unconvertible,
}

/// Why a list could not be made.
#[derive(Debug, Clone, Copy, PartialEq, Eq)]
pub enum SearchParamsError {
    /// A member of a sequence init does not have exactly two elements.
    PairLength,
    /// The init value is not of a kind that a list can be made from.
    InvalidInit,
}

impl SearchParamsError {
    /// The message of the `TypeError` that reports this error.
    pub fn message(&self) -> (r: &'static str)
        ensures
            *self == SearchParamsError::PairLength ==> r@ == "Each init sequence must have exactly 2 elements"@,
            *self == SearchParamsError::InvalidInit ==> r@
                == "URLSearchParams init must be a string, sequence of pairs, record, or URLSearchParams"@,
    {
        match self {
            SearchParamsError::PairLength => "Each init sequence must have exactly 2 elements",
            SearchParamsError::InvalidInit => "URLSearchParams init must be a string, sequence of pairs, record, or URLSearchParams",
        }
    }
}

/// `s` without a leading `?`, where it has one.
pub open spec fn trim_leading_question_mark(s: Seq<char>) -> Seq<char> {
    if s.len() > 0 && s[0] == '?' {
        s.drop_first()
    } else {
        s
    }
}

/// Every member of a sequence init has exactly two elements.
pub open spec fn all_pairs(members: Seq<Vec<String>>) -> bool {
    forall|i: int| 0 <= i < members.len() ==> (#[trigger] members[i])@.len() == 2
}

/// The pairs that a sequence init of two-element members stands for.
pub open spec fn sequence_entries(members: Seq<Vec<String>>) -> Seq<Entry> {
    members.map_values(|m: Vec<String>| (m@[0]@, m@[1]@))
}

/// `s` without a leading `?`, where it has one.
pub fn strip_leading_question_mark(s: &str) -> (r: &str)
    ensures
        r@ == trim_leading_question_mark(s@),
{
    let n = s.unicode_len();
    if n > 0 && s.get_char(0) == '?' {
        assert(s@.subrange(1, n as int) =~= s@.drop_first());
        s.substring_char(1, n)
    } else {
        s
    }
}

/// The list of name/value pairs of a query string, in insertion order.
#[derive(Debug)]
pub struct UrlSearchParams {
    params: Vec<(String, String)>,
}

impl View for UrlSearchParams {
    type V = Seq<Entry>;

    /// The pairs, as characters, in list order.
    open spec fn view(&self) -> Seq<Entry> {
        entries_view(self.pairs())
    }
}

impl UrlSearchParams {
    /// The pairs as held, in list order.
    pub closed spec fn pairs(&self) -> Seq<(String, String)> {
        self.params@
    }

    /// A list holding exactly `pairs`, in their order.
    pub fn from_entries(pairs: Vec<(String, String)>) -> (r: Self)
        ensures
            r.pairs() == pairs@,
            r@ == entries_view(pairs@),
    {
        UrlSearchParams { params: pairs }
    }

    /// Appends a new name/value pair to the list.
    pub fn append(&mut self, name: String, value: String)
        ensures
            final(self)@ == old(self)@.push((name@, value@)),
    {
        let ghost before = self.params@;
        self.params.push((name, value));
        proof {
            assert(entries_view(self.params@) =~= entries_view(before).push((name@, value@)));
        }
    }

    /// Returns the number of name/value pairs.
    pub fn size(&self) -> (n: usize)
        ensures
            n == self@.len(),
    {
        self.params.len()
    }

    /// Returns all `(name, value)` pairs in list order.
    pub fn entries(&self) -> (r: Vec<(String, String)>)
        ensures
            entries_view(r@) == self@,
    {
        let mut out: Vec<(String, String)> = Vec::new();
        let mut i: usize = 0;
        while i < self.params.len()
            invariant
                i <= self.params@.len(),
                out@ == self.params@.take(i as int),
            decreases self.params@.len() - i,
        {
            out.push(clone_pair(&self.params[i]));
            i = i + 1;
            assert(out@ =~= self.params@.take(i as int));
        }
        assert(self.params@.take(i as int) =~= self.params@);
        out
    }

    /// Returns all names in list order.
    pub fn keys(&self) -> (r: Vec<String>)
        ensures
            strings_view(r@) == self@.map_values(|e: Entry| e.0),
    {
        let mut out: Vec<String> = Vec::new();
        let mut i: usize = 0;
        while i < self.params.len()
            invariant
                i <= self.params@.len(),
                out@.len() == i,
                forall|j: int| 0 <= j < i ==> (#[trigger] out@[j])@ == self.params@[j].0@,
            decreases self.params@.len() - i,
        {
            out.push(self.params[i].0.clone());
            i = i + 1;
        }
        assert(strings_view(out@) =~= self@.map_values(|e: Entry| e.0));
        out
    }

    /// Returns all values in list order.
    pub fn values(&self) -> (r: Vec<String>)
        ensures
            strings_view(r@) == self@.map_values(|e: Entry| e.1),
    {
        let mut out: Vec<String> = Vec::new();
        let mut i: usize = 0;
        while i < self.params.len()
            invariant
                i <= self.params@.len(),
                out@.len() == i,
                forall|j: int| 0 <= j < i ==> (#[trigger] out@[j])@ == self.params@[j].1@,
            decreases self.params@.len() - i,
        {
            out.push(self.params[i].1.clone());
            i = i + 1;
        }
        assert(strings_view(out@) =~= self@.map_values(|e: Entry| e.1));
        out
    }

    /// Returns all values associated with `name`, in list order.
    pub fn get_all(&self, name: String) -> (r: Vec<String>)
        ensures
            strings_view(r@) == values_named(self@, name@),
    {
        let ghost p = self@;
        let mut out: Vec<String> = Vec::new();
        let mut i: usize = 0;
        assert(p.take(0) =~= Seq::<Entry>::empty());
        while i < self.params.len()
            invariant
                p == self@,
                i <= self.params@.len(),
                strings_view(out@) == values_named(p.take(i as int), name@),
            decreases self.params@.len() - i,
        {
            let ghost before = out@;
            proof {
                assert(p.take(i + 1) =~= p.take(i as int).push(p[i as int]));
                lemma_select_push(p.take(i as int), p[i as int], name@, None, true);
            }
            if self.params[i].0 == name {
                out.push(self.params[i].1.clone());
                assert(strings_view(out@) =~= strings_view(before).push(p[i as int].1));
                assert(values_named(p.take(i + 1), name@) =~= values_named(
                    p.take(i as int),
                    name@,
                ).push(p[i as int].1));
            }
            i = i + 1;
        }
        assert(p.take(i as int) =~= p);
        out
    }

    /// Returns the first value associated with `name`, or `None` if there is none.
    pub fn get(&self, name: String) -> (r: Option<String>)
        ensures
            opt_view(r) == first_value(self@, name@),
    {
        let ghost p = self@;
        let mut i: usize = 0;
        while i < self.params.len()
            invariant
                p == self@,
                i <= self.params@.len(),
                forall|j: int| 0 <= j < i ==> (#[trigger] p[j]).0 != name@,
            decreases self.params@.len() - i,
        {
            if self.params[i].0 == name {
                proof {
                    lemma_select_none(p.take(i as int), name@, None, true);
                    lemma_select_push(p.take(i as int), p[i as int], name@, None, true);
                    assert(p.take(i as int).push(p[i as int]) + p.skip(i + 1) =~= p);
                    lemma_select_add(p.take(i as int).push(p[i as int]), p.skip(i + 1), name@, None, true);
                    assert(matching(p, name@, None)[0] == p[i as int]);
                }
                return Some(self.params[i].1.clone());
            }
            i = i + 1;
        }
        proof {
            assert(p.take(i as int) =~= p);
            lemma_select_none(p, name@, None, true);
        }
        None
    }

    /// Whether some pair has the name `name` and, where `value` is given,
    /// that value too.
    pub fn has(&self, name: String, value: Option<String>) -> (r: bool)
        ensures
            r == has_match(self@, name@, opt_view(value)),
    {
        let ghost p = self@;
        let mut i: usize = 0;
        while i < self.params.len()
            invariant
                p == self@,
                i <= self.params@.len(),
                forall|j: int| 0 <= j < i ==> !entry_matches(#[trigger] p[j], name@, opt_view(value)),
            decreases self.params@.len() - i,
        {
            let hit = match &value {
                Some(v) => self.params[i].0 == name && self.params[i].1 == *v,
                None => self.params[i].0 == name,
            };
            if hit {
                assert(entry_matches(p[i as int], name@, opt_view(value)));
                return true;
            }
            i = i + 1;
        }
        false
    }

    /// Removes every pair named `name`; where `value` is given, only the
    /// pairs with both that name and that value. The others keep their order.
    pub fn delete(&mut self, name: String, value: Option<String>)
        ensures
            final(self)@ == without(old(self)@, name@, opt_view(value)),
    {
        let ghost p = self@;
        let ghost v = opt_view(value);
        let mut out: Vec<(String, String)> = Vec::new();
        let mut i: usize = 0;
        assert(p.take(0) =~= Seq::<Entry>::empty());
        while i < self.params.len()
            invariant
                p == self@,
                v == opt_view(value),
                i <= self.params@.len(),
                entries_view(out@) == without(p.take(i as int), name@, v),
            decreases self.params@.len() - i,
        {
            let ghost before = out@;
            proof {
                assert(p.take(i + 1) =~= p.take(i as int).push(p[i as int]));
                lemma_select_push(p.take(i as int), p[i as int], name@, v, false);
            }
            let hit = match &value {
                Some(val) => self.params[i].0 == name && self.params[i].1 == *val,
                None => self.params[i].0 == name,
            };
            if !hit {
                out.push(clone_pair(&self.params[i]));
                assert(entries_view(out@) =~= entries_view(before).push(p[i as int]));
            }
            i = i + 1;
        }
        assert(p.take(i as int) =~= p);
        self.params = out;
    }

    /// Sets `name` to `value`: the first pair named `name` takes the value and
    /// the later pairs of that name are removed; where there is none, the pair
    /// is appended.
    pub fn set(&mut self, name: String, value: String)
        ensures
            final(self)@ == set_entry(old(self)@, name@, value@),
    {
        let ghost p = self@;
        let mut out: Vec<(String, String)> = Vec::new();
        let mut found = false;
        let ghost mut fi: int = 0;
        let mut i: usize = 0;
        assert(p.take(0) =~= Seq::<Entry>::empty());
        while i < self.params.len()
            invariant
                p == self@,
                i <= self.params@.len(),
                !found ==> entries_view(out@) == p.take(i as int),
                !found ==> forall|j: int| 0 <= j < i ==> (#[trigger] p[j]).0 != name@,
                found ==> fi < i && is_first_named(p, name@, fi),
                found ==> entries_view(out@) == p.take(fi).push((name@, value@)) + without(
                    p.subrange(fi + 1, i as int),
                    name@,
                    None,
                ),
            decreases self.params@.len() - i,
        {
            let ghost before = out@;
            if self.params[i].0 == name {
                if !found {
                    out.push((name.clone(), value.clone()));
                    proof {
                        fi = i as int;
                        assert(p.subrange(fi + 1, i + 1) =~= Seq::<Entry>::empty());
                        assert(entries_view(out@) =~= entries_view(before).push((name@, value@)));
                        assert(entries_view(out@) =~= p.take(fi).push((name@, value@)) + without(
                            p.subrange(fi + 1, i + 1),
                            name@,
                            None,
                        ));
                    }
                    found = true;
                } else {
                    proof {
                        assert(p.subrange(fi + 1, i + 1) =~= p.subrange(fi + 1, i as int).push(
                            p[i as int],
                        ));
                        lemma_select_push(p.subrange(fi + 1, i as int), p[i as int], name@, None, false);
                    }
                }
            } else {
                out.push(clone_pair(&self.params[i]));
                proof {
                    assert(entries_view(out@) =~= entries_view(before).push(p[i as int]));
                    if found {
                        assert(p.subrange(fi + 1, i + 1) =~= p.subrange(fi + 1, i as int).push(
                            p[i as int],
                        ));
                        lemma_select_push(p.subrange(fi + 1, i as int), p[i as int], name@, None, false);
                        let w = without(p.subrange(fi + 1, i as int), name@, None);
                        assert(p.take(fi).push((name@, value@)) + w.push(p[i as int]) =~= (p.take(
                            fi,
                        ).push((name@, value@)) + w).push(p[i as int]));
                    } else {
                        assert(p.take(i + 1) =~= p.take(i as int).push(p[i as int]));
                    }
                }
            }
            i = i + 1;
        }
        if !found {
            let ghost before = out@;
            out.push((name, value));
            proof {
                assert(p.take(i as int) =~= p);
                assert(entries_view(out@) =~= entries_view(before).push((name@, value@)));
                if has_match(p, name@, None) {
                    let j = choose|j: int| 0 <= j < p.len() && entry_matches(#[trigger] p[j], name@, None);
                    assert(p[j].0 != name@);
                }
            }
        } else {
            proof {
                assert(p.subrange(fi + 1, i as int) =~= p.skip(fi + 1));
                assert(entry_matches(p[fi], name@, None));
                lemma_first_named_unique(p, name@, fi);
            }
        }
        self.params = out;
    }

    /// Returns the serialized form, `name=value&name2=value2`, in list order.
    ///
    /// The result is empty exactly when the list is, and a list made from it
    /// as a text init holds the same pairs in the same order.
    pub fn to_string(&self) -> (r: String)
        ensures
            r@ == form_urlencoded_serialize(self@),
            r@.len() == 0 <==> self@.len() == 0,
            form_urlencoded_parse(trim_leading_question_mark(r@)) == self@,
    {
        let r = serialize_pairs(&self.params);
        proof {
            if r@.len() > 0 {
                assert(r@[0] != '?');
            }
        }
        r
    }

    /// The query that a URL linked to this list takes after a change: none
    /// where the list is empty, else the serialized list.
    pub fn sync_to_url(&self) -> (r: Option<String>)
        ensures
            r is None <==> self@.len() == 0,
            r matches Some(q) ==> q@ == form_urlencoded_serialize(self@),
    {
        if self.params.len() == 0 {
            None
        } else {
            Some(serialize_pairs(&self.params))
        }
    }

    /// A list parsed from the query of a URL, given as `url_query` (`None`
    /// where the URL has no query).
    pub fn from_url(url_query: Option<&str>) -> (r: Self)
        ensures
            url_query is None ==> r@ == Seq::<Entry>::empty(),
            url_query matches Some(q) ==> r@ == form_urlencoded_parse(q@),
    {
        match url_query {
            Some(q) => Self::from_entries(parse_query(q)),
            None => UrlSearchParams { params: Vec::new() },
        }
    }

    /// Calls `callback(value, name)` for each pair in list order, and stops at
    /// the first call that fails, returning its error.
    pub fn for_each<E, F: Fn(String, String) -> Result<(), E>>(&self, callback: F) -> (r: Result<
        (),
        E,
    >)
        requires
            forall|v: String, k: String| callback.requires((v, k)),
        ensures
            r is Ok ==> forall|i: int|
                0 <= i < self.pairs().len() ==> callback.ensures(
                    ((#[trigger] self.pairs()[i]).1, self.pairs()[i].0),
                    Ok(()),
                ),
            r matches Err(e) ==> exists|k: int|
                0 <= k < self.pairs().len() && (forall|i: int|
                    0 <= i < k ==> callback.ensures(
                        ((#[trigger] self.pairs()[i]).1, self.pairs()[i].0),
                        Ok(()),
                    )) && callback.ensures(
                    (self.pairs()[k].1, self.pairs()[k].0),
                    Err(e),
                ),
    {
        let mut i: usize = 0;
        while i < self.params.len()
            invariant
                i <= self.params@.len(),
                forall|v: String, k: String| callback.requires((v, k)),
                forall|j: int|
                    0 <= j < i ==> callback.ensures(
                        ((#[trigger] self.params@[j]).1, self.params@[j].0),
                        Ok(()),
                    ),
            decreases self.params@.len() - i,
        {
            let v = self.params[i].1.clone();
            let k = self.params[i].0.clone();
            let res = callback(v, k);
            match res {
                Ok(u) => {
                    assert(res == Ok::<(), E>(u));
                },
                Err(e) => {
                    assert(res == Err::<(), E>(e));
                    assert(callback.ensures((self.pairs()[i as int].1, self.pairs()[i as int].0), Err(e)));
                    return Err(e);
                },
            }
            i = i + 1;
        }
        Ok(())
    }

    /// Sorts the pairs by name in ascending order of the names' UTF-16 code
    /// units; pairs of the same name keep their relative order.
    pub fn sort(&mut self)
        ensures
            final(self)@.len() == old(self)@.len(),
            sorted_by_name(final(self)@),
            same_per_name(final(self)@, old(self)@),
    {
        self.params = stable_sort_by_name(&self.params);
    }

    /// A copy of `other`'s pairs.
    fn copy_of(other: &UrlSearchParams) -> (r: Self)
        ensures
            r@ == other@,
    {
        let mut out: Vec<(String, String)> = Vec::new();
        let mut i: usize = 0;
        while i < other.params.len()
            invariant
                i <= other.params@.len(),
                out@ == other.params@.take(i as int),
            decreases other.params@.len() - i,
        {
            out.push(clone_pair(&other.params[i]));
            i = i + 1;
            assert(out@ =~= other.params@.take(i as int));
        }
        assert(other.params@.take(i as int) =~= other.params@);
        UrlSearchParams { params: out }
    }

    /// The pairs of a sequence init, or the error for a member that does not
    /// have exactly two elements.
    fn from_sequence(members: Vec<Vec<String>>) -> (r: Result<Self, SearchParamsError>)
        ensures
            all_pairs(members@) ==> (r matches Ok(p) && p@ == sequence_entries(members@)),
            !all_pairs(members@) ==> r == Err::<Self, SearchParamsError>(SearchParamsError::PairLength),
    {
        let mut out: Vec<(String, String)> = Vec::new();
        let mut i: usize = 0;
        while i < members.len()
            invariant
                i <= members@.len(),
                all_pairs(members@.take(i as int)),
                entries_view(out@) == sequence_entries(members@.take(i as int)),
            decreases members@.len() - i,
        {
            if members[i].len() != 2 {
                return Err(SearchParamsError::PairLength);
            }
            let ghost before = out@;
            let name = members[i][0].clone();
            let value = members[i][1].clone();
            assert(name@ == members@[i as int]@[0]@ && value@ == members@[i as int]@[1]@);
            out.push((name, value));
            proof {
                assert(members@.take(i + 1) =~= members@.take(i as int).push(members@[i as int]));
                assert(entries_view(out@) =~= entries_view(before).push((name@, value@)));
                assert(sequence_entries(members@.take(i + 1)) =~= sequence_entries(
                    members@.take(i as int),
                ).push((name@, value@)));
            }
            i = i + 1;
            assert(all_pairs(members@.take(i as int)));
        }
        assert(members@.take(i as int) =~= members@);
        Ok(UrlSearchParams { params: out })
    }

    /// Makes a list from `init`.
    pub fn new(init: SearchParamsInit) -> (r: Result<Self, SearchParamsError>)
        ensures
            init is Empty ==> (r matches Ok(p) && p@ == Seq::<Entry>::empty()),
            init matches SearchParamsInit::Params(other) ==> (r matches Ok(p) && p@ == other@),
            init matches SearchParamsInit::Sequence(members) ==> {
                &&& all_pairs(members@) ==> (r matches Ok(p) && p@ == sequence_entries(members@))
                &&& !all_pairs(members@) ==> r == Err::<Self, SearchParamsError>(
                    SearchParamsError::PairLength,
                )
            },
            init matches SearchParamsInit::Record(props) ==> (r matches Ok(p) && {
                &&& strictly_sorted_by_name(p@)
                &&& forall|n: Seq<char>| #[trigger]
                    matching(p@, n, None) == last_only(matching(entries_view(props@), n, None))
            }),
            init matches SearchParamsInit::Text(s) ==> (r matches Ok(p) && p@ == form_urlencoded_parse(
                trim_leading_question_mark(s@),
            )),
            init is Unconvertible ==> r == Err::<Self, SearchParamsError>(
                SearchParamsError::InvalidInit,
            ),
    {
        match init {
            SearchParamsInit::Empty => Ok(UrlSearchParams { params: Vec::new() }),
            SearchParamsInit::Params(other) => Ok(Self::copy_of(other)),
            SearchParamsInit::Sequence(members) => Self::from_sequence(members),
            SearchParamsInit::Record(props) => Ok(UrlSearchParams { params: by_name_last_wins(&props) }),
            SearchParamsInit::Text(s) => {
                let query = strip_leading_question_mark(s.as_str());
                Ok(Self::from_entries(parse_query(query)))
            },
            SearchParamsInit::Unconvertible => Err(SearchParamsError::InvalidInit),
        }
    }
}

} // verus!
