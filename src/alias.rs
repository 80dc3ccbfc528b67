use vstd::prelude::*;

use crate::text::{lower_of, str_equal, to_lowercase, trim, trimmed};
use vstd::string::StrSliceExecFns;

verus! {

/// Name of the alias file kept in a library root.
pub const ALIAS_FILE_NAME: &'static str = "alias.json";

/// A problem met while reading an alias file.
#[derive(Debug, Clone, PartialEq, Eq)]
pub struct AliasWarning {
    pub path: String,
    pub message: String,
}

/// The character sequences of a list of strings.
pub open spec fn views(v: Seq<String>) -> Seq<Seq<char>> {
    v.map_values(|s: String| s@)
}

/// A search term as matched: trimmed and lower-cased; nothing if only blanks remain.
pub open spec fn normalized(t: Seq<char>) -> Option<Seq<char>> {
    if trimmed(t).len() == 0 {
        None
    } else {
        Some(lower_of(trimmed(t)))
    }
}

/// The normalized terms in order of first appearance, each once.
pub open spec fn normalized_all(ts: Seq<Seq<char>>) -> Seq<Seq<char>>
    decreases ts.len(),
{
    if ts.len() == 0 {
        Seq::empty()
    } else {
        let prev = normalized_all(ts.drop_last());
        match normalized(ts.last()) {
            Some(x) => if prev.contains(x) {
                prev
            } else {
                prev.push(x)
            },
            None => prev,
        }
    }
}

/// The terms in order of first appearance, each once.
pub open spec fn first_occurrences(ts: Seq<Seq<char>>) -> Seq<Seq<char>>
    decreases ts.len(),
{
    if ts.len() == 0 {
        Seq::empty()
    } else {
        let prev = first_occurrences(ts.drop_last());
        if prev.contains(ts.last()) {
            prev
        } else {
            prev.push(ts.last())
        }
    }
}

/// Whether `v` holds a string equal to `x`.
pub fn contains_term(v: &Vec<String>, x: &String) -> (r: bool)
    ensures
        r == views(v@).contains(x@),
{
    let mut i: usize = 0;
    while i < v.len()
        invariant
            i <= v.len(),
            forall|k: int| 0 <= k < i ==> v@[k]@ != x@,
        decreases v.len() - i,
    {
        if v[i].eq(x) {
            proof {
                assert(views(v@)[i as int] == x@);
            }
            return true;
        }
        i = i + 1;
    }
    proof {
        if views(v@).contains(x@) {
            let k = choose|k: int| 0 <= k < views(v@).len() && views(v@)[k] == x@;
            assert(v@[k]@ == x@);
        }
    }
    false
}

/// A copy of every string of `v`.
pub fn clone_terms(v: &Vec<String>) -> (r: Vec<String>)
    ensures
        r@ == v@,
{
    let mut out: Vec<String> = Vec::new();
    let mut i: usize = 0;
    while i < v.len()
        invariant
            i <= v.len(),
            out@ == v@.subrange(0, i as int),
        decreases v.len() - i,
    {
        out.push(v[i].clone());
        assert(out@ =~= v@.subrange(0, i + 1));
        i = i + 1;
    }
    assert(out@ =~= v@);
    out
}

/// The term trimmed and lower-cased, or nothing if it is blank.
pub fn normalize_search_term(term: &str) -> (r: Option<String>)
    ensures
        match r {
            Some(s) => normalized(term@) == Some(s@),
            None => normalized(term@).is_none(),
        },
{
    let t = trim(term);
    if t.as_str().unicode_len() == 0 {
        None
    } else {
        Some(to_lowercase(t.as_str()))
    }
}

/// The normalized terms, blanks dropped, each kept once where it first appears.
pub fn normalize_search_terms(terms: Vec<String>) -> (r: Vec<String>)
    ensures
        views(r@) == normalized_all(views(terms@)),
{
    let mut out: Vec<String> = Vec::new();
    let mut i: usize = 0;
    while i < terms.len()
        invariant
            i <= terms.len(),
            views(out@) == normalized_all(views(terms@.subrange(0, i as int))),
        decreases terms.len() - i,
    {
        proof {
            assert(views(terms@.subrange(0, i + 1)).drop_last() =~= views(terms@.subrange(0, i as int)));
            assert(views(terms@.subrange(0, i + 1)).last() == terms@[i as int]@);
        }
        match normalize_search_term(terms[i].as_str()) {
            Some(t) => {
                if !contains_term(&out, &t) {
                    let ghost prev = out@;
                    out.push(t);
                    assert(views(out@) =~= views(prev).push(out@[prev.len() as int]@));
                }
            },
            None => {},
        }
        i = i + 1;
    }
    assert(terms@.subrange(0, terms.len() as int) =~= terms@);
    out
}

/// Each term's aliases, as an association list; the first entry for a key counts.
#[derive(Clone, Debug, Default)]
pub struct AliasMap {
    entries: Vec<(String, Vec<String>)>,
}

pub open spec fn entry_views(e: Seq<(String, Vec<String>)>) -> Seq<(Seq<char>, Seq<Seq<char>>)> {
    e.map_values(|p: (String, Vec<String>)| (p.0@, views(p.1@)))
}

impl View for AliasMap {
    type V = Seq<(Seq<char>, Seq<Seq<char>>)>;

    closed spec fn view(&self) -> Seq<(Seq<char>, Seq<Seq<char>>)> {
        entry_views(self.entries@)
    }
}

/// The aliases recorded for `k`: those of the first entry with that key.
pub open spec fn lookup(e: Seq<(Seq<char>, Seq<Seq<char>>)>, k: Seq<char>) -> Option<Seq<Seq<char>>>
    decreases e.len(),
{
    if e.len() == 0 {
        None
    } else if e[0].0 == k {
        Some(e[0].1)
    } else {
        lookup(e.drop_first(), k)
    }
}

/// `x` and `y` are aliases: some entry has one as its key and the other in its list.
pub open spec fn alias_edge(m: Seq<(Seq<char>, Seq<Seq<char>>)>, x: Seq<char>, y: Seq<char>) -> bool {
    exists|i: int|
        0 <= i < m.len() && ((#[trigger] m[i].0 == x && m[i].1.contains(y)) || (m[i].0 == y
            && m[i].1.contains(x)))
}

/// Every term the map mentions, keys and aliases.
pub open spec fn map_terms(m: Seq<(Seq<char>, Seq<Seq<char>>)>) -> Seq<Seq<char>>
    decreases m.len(),
{
    if m.len() == 0 {
        Seq::empty()
    } else {
        map_terms(m.drop_last()).push(m.last().0) + m.last().1
    }
}

proof fn lemma_lookup_skip(e: Seq<(Seq<char>, Seq<Seq<char>>)>, k: Seq<char>, i: int)
    requires
        0 <= i <= e.len(),
        forall|j: int| 0 <= j < i ==> e[j].0 != k,
    ensures
        lookup(e, k) == lookup(e.subrange(i, e.len() as int), k),
    decreases i,
{
    if i > 0 {
        lemma_lookup_skip(e.drop_first(), k, i - 1);
        assert(e.drop_first().subrange(i - 1, e.drop_first().len() as int) =~= e.subrange(
            i,
            e.len() as int,
        ));
    } else {
        assert(e.subrange(0, e.len() as int) =~= e);
    }
}

proof fn lemma_lookup_update(
    e: Seq<(Seq<char>, Seq<Seq<char>>)>,
    i: int,
    v: Seq<Seq<char>>,
    k: Seq<char>,
)
    requires
        0 <= i < e.len(),
        forall|j: int| 0 <= j < i ==> e[j].0 != e[i].0,
    ensures
        lookup(e.update(i, (e[i].0, v)), k) == if k == e[i].0 {
            Some(v)
        } else {
            lookup(e, k)
        },
    decreases i,
{
    let f = e.update(i, (e[i].0, v));
    if i > 0 {
        lemma_lookup_update(e.drop_first(), i - 1, v, k);
        assert(f.drop_first() =~= e.drop_first().update(i - 1, (e[i].0, v)));
        assert(f[0] == e[0]);
    } else {
        assert(f.drop_first() =~= e.drop_first());
    }
}

proof fn lemma_lookup_push(e: Seq<(Seq<char>, Seq<Seq<char>>)>, x: (Seq<char>, Seq<Seq<char>>), k: Seq<char>)
    requires
        forall|j: int| 0 <= j < e.len() ==> e[j].0 != x.0,
    ensures
        lookup(e.push(x), k) == if k == x.0 {
            Some(x.1)
        } else {
            lookup(e, k)
        },
    decreases e.len(),
{
    if e.len() > 0 {
        lemma_lookup_push(e.drop_first(), x, k);
        assert(e.push(x).drop_first() =~= e.drop_first().push(x));
        assert(e.push(x)[0] == e[0]);
    } else {
        let empty = Seq::<(Seq<char>, Seq<Seq<char>>)>::empty();
        assert(e.push(x).drop_first() =~= empty);
        assert(lookup(empty, k).is_none());
        assert(e =~= empty);
        assert(lookup(e, k).is_none());
        assert(e.push(x)[0] == x);
    }
}

proof fn lemma_map_terms_has(m: Seq<(Seq<char>, Seq<Seq<char>>)>, i: int)
    requires
        0 <= i < m.len(),
    ensures
        map_terms(m).contains(m[i].0),
        forall|y: Seq<char>| m[i].1.contains(y) ==> #[trigger] map_terms(m).contains(y),
    decreases m.len(),
{
    let prev = map_terms(m.drop_last());
    let mid = prev.push(m.last().0);
    let all = mid + m.last().1;
    assert(map_terms(m) == all);
    if i < m.len() - 1 {
        lemma_map_terms_has(m.drop_last(), i);
        assert(m.drop_last()[i] == m[i]);
        let j = choose|j: int| 0 <= j < prev.len() && prev[j] == m[i].0;
        assert(all[j] == m[i].0);
        assert forall|y: Seq<char>| m[i].1.contains(y) implies #[trigger] map_terms(m).contains(y) by {
            assert(prev.contains(y));
            let j = choose|j: int| 0 <= j < prev.len() && prev[j] == y;
            assert(all[j] == y);
        }
    } else {
        assert(all[prev.len() as int] == m[i].0);
        assert forall|y: Seq<char>| m[i].1.contains(y) implies #[trigger] map_terms(m).contains(y) by {
            let j = choose|j: int| 0 <= j < m[i].1.len() && m[i].1[j] == y;
            assert(all[mid.len() + j] == y);
        }
    }
}

impl AliasMap {
    pub fn new() -> (r: AliasMap)
        ensures
            r@.len() == 0,
    {
        AliasMap { entries: Vec::new() }
    }

    /// Number of entries.
    pub fn len(&self) -> (r: usize)
        ensures
            r == self@.len(),
    {
        self.entries.len()
    }

    /// The aliases recorded for `key`.
    pub fn get(&self, key: &str) -> (r: Option<&Vec<String>>)
        ensures
            match r {
                Some(v) => lookup(self@, key@) == Some(views(v@)),
                None => lookup(self@, key@).is_none(),
            },
    {
        let ghost e = self@;
        let mut i: usize = 0;
        while i < self.entries.len()
            invariant
                e == entry_views(self.entries@),
                i <= self.entries.len(),
                forall|j: int| 0 <= j < i ==> e[j].0 != key@,
            decreases self.entries.len() - i,
        {
            if self.entries[i].0.as_str().unicode_len() == key.unicode_len() && str_equal(
                self.entries[i].0.as_str(),
                key,
            ) {
                proof {
                    lemma_lookup_skip(e, key@, i as int);
                }
                return Some(&self.entries[i].1);
            }
            i = i + 1;
        }
        proof {
            lemma_lookup_skip(e, key@, i as int);
        }
        None
    }

    /// Records `aliases` for `key`, replacing and returning what was there.
    pub fn insert(&mut self, key: String, aliases: Vec<String>) -> (r: Option<Vec<String>>)
        ensures
            forall|k: Seq<char>|
                #[trigger] lookup(final(self)@, k) == if k == key@ {
                    Some(views(aliases@))
                } else {
                    lookup(old(self)@, k)
                },
            match r {
                Some(v) => lookup(old(self)@, key@) == Some(views(v@)),
                None => lookup(old(self)@, key@).is_none(),
            },
    {
        let ghost e = self@;
        let mut i: usize = 0;
        while i < self.entries.len()
            invariant
                e == entry_views(self.entries@),
                *self == *old(self),
                i <= self.entries.len(),
                forall|j: int| 0 <= j < i ==> e[j].0 != key@,
            decreases self.entries.len() - i,
        {
            if self.entries[i].0.eq(&key) {
                let ghost kv = key@;
                let ghost av = views(aliases@);
                let old_entry = self.entries.remove(i);
                self.entries.insert(i, (key, aliases));
                proof {
                    lemma_lookup_skip(e, kv, i as int);
                    assert(self@ =~= e.update(i as int, (e[i as int].0, av)));
                    assert forall|k: Seq<char>| #[trigger] lookup(self@, k) == if k == kv {
                        Some(av)
                    } else {
                        lookup(e, k)
                    } by {
                        lemma_lookup_update(e, i as int, av, k);
                    }
                }
                return Some(old_entry.1);
            }
            i = i + 1;
        }
        proof {
            lemma_lookup_skip(e, key@, i as int);
            assert forall|k: Seq<char>| #[trigger] lookup(e.push((key@, views(aliases@))), k) == if k == key@ {
                Some(views(aliases@))
            } else {
                lookup(e, k)
            } by {
                lemma_lookup_push(e, (key@, views(aliases@)), k);
            }
        }
        let ghost kv = key@;
        let ghost av = views(aliases@);
        self.entries.push((key, aliases));
        assert(self@ =~= e.push((kv, av)));
        None
    }
}

/// `cur` followed by each term of `add` that is not yet present, in order.
pub open spec fn append_new(cur: Seq<Seq<char>>, add: Seq<Seq<char>>) -> Seq<Seq<char>>
    decreases add.len(),
{
    if add.len() == 0 {
        cur
    } else {
        let prev = append_new(cur, add.drop_last());
        if prev.contains(add.last()) {
            prev
        } else {
            prev.push(add.last())
        }
    }
}

/// What `k` maps to after the entries of `src` are merged, one after another, into
/// a map where `k` maps to `start`.
pub open spec fn merged_lookup(
    start: Option<Seq<Seq<char>>>,
    src: Seq<(Seq<char>, Seq<Seq<char>>)>,
    k: Seq<char>,
) -> Option<Seq<Seq<char>>>
    decreases src.len(),
{
    if src.len() == 0 {
        start
    } else {
        let prev = merged_lookup(start, src.drop_last(), k);
        if src.last().0 == k {
            Some(
                append_new(
                    match prev {
                        Some(v) => v,
                        None => Seq::empty(),
                    },
                    src.last().1,
                ),
            )
        } else {
            prev
        }
    }
}

/// Merges every entry of `src` into `dst`: the aliases of an entry that `dst` does not
/// yet record for its term are appended to that term's list.
pub fn merge_alias_map(dst: &mut AliasMap, src: &AliasMap)
    ensures
        forall|k: Seq<char>|
            #[trigger] lookup(final(dst)@, k) == merged_lookup(lookup(old(dst)@, k), src@, k),
{
    let ghost start = dst@;
    let mut e: usize = 0;
    while e < src.entries.len()
        invariant
            start == old(dst)@,
            e <= src.entries.len(),
            forall|k: Seq<char>|
                #[trigger] lookup(dst@, k) == merged_lookup(
                    lookup(start, k),
                    entry_views(src.entries@).subrange(0, e as int),
                    k,
                ),
        decreases src.entries.len() - e,
    {
        let key = &src.entries[e].0;
        let aliases = &src.entries[e].1;
        let mut list: Vec<String> = match dst.get(key.as_str()) {
            Some(v) => clone_terms(v),
            None => Vec::new(),
        };
        let ghost base = views(list@);
        assert(base == match lookup(dst@, key@) {
            Some(v) => v,
            None => Seq::<Seq<char>>::empty(),
        });
        let mut t: usize = 0;
        while t < aliases.len()
            invariant
                t <= aliases.len(),
                views(list@) == append_new(base, views(aliases@).subrange(0, t as int)),
            decreases aliases.len() - t,
        {
            proof {
                assert(views(aliases@).subrange(0, t + 1).drop_last() =~= views(aliases@).subrange(0, t as int));
                assert(views(aliases@).subrange(0, t + 1).last() == aliases@[t as int]@);
            }
            push_new(&mut list, &aliases[t]);
            t = t + 1;
        }
        proof {
            assert(views(aliases@).subrange(0, aliases.len() as int) =~= views(aliases@));
        }
        let ghost before = dst@;
        dst.insert(key.clone(), list);
        proof {
            let sv = entry_views(src.entries@);
            assert(sv.subrange(0, e + 1).drop_last() =~= sv.subrange(0, e as int));
            assert(sv.subrange(0, e + 1).last() == (key@, views(aliases@)));
            assert(sv[e as int] == (key@, views(aliases@)));
            assert forall|k: Seq<char>|
                #[trigger] lookup(dst@, k) == merged_lookup(lookup(start, k), sv.subrange(0, e + 1), k) by {
                assert(merged_lookup(lookup(start, k), sv.subrange(0, e + 1), k) == if k == key@ {
                    Some(append_new(match merged_lookup(lookup(start, k), sv.subrange(0, e as int), k) {
                        Some(v) => v,
                        None => Seq::empty(),
                    }, views(aliases@)))
                } else {
                    merged_lookup(lookup(start, k), sv.subrange(0, e as int), k)
                });
                assert(lookup(before, k) == merged_lookup(lookup(start, k), sv.subrange(0, e as int), k));
            }
        }
        e = e + 1;
    }
    proof {
        assert(entry_views(src.entries@).subrange(0, src.entries.len() as int) =~= entry_views(src.entries@));
    }
}

/// The term at position `k` of `r` is an alias of an earlier one.
pub open spec fn reached(m: Seq<(Seq<char>, Seq<Seq<char>>)>, r: Seq<Seq<char>>, k: int) -> bool {
    exists|j: int| 0 <= j < k && alias_edge(m, r[j], r[k])
}

proof fn lemma_prefix_grow(m: Seq<(Seq<char>, Seq<Seq<char>>)>, a: Seq<Seq<char>>, b: Seq<Seq<char>>)
    requires
        a.len() <= b.len(),
        b.subrange(0, a.len() as int) == a,
    ensures
        forall|x: Seq<char>| a.contains(x) ==> #[trigger] b.contains(x),
        forall|k: int| 0 <= k < a.len() && reached(m, a, k) ==> #[trigger] reached(m, b, k),
        forall|k: int| 0 <= k < a.len() ==> #[trigger] b[k] == a[k],
{
    assert forall|k: int| 0 <= k < a.len() implies #[trigger] b[k] == a[k] by {
        assert(b.subrange(0, a.len() as int)[k] == b[k]);
    }
    assert forall|x: Seq<char>| a.contains(x) implies #[trigger] b.contains(x) by {
        let k = choose|k: int| 0 <= k < a.len() && a[k] == x;
        assert(b[k] == x);
    }
    assert forall|k: int| 0 <= k < a.len() && reached(m, a, k) implies #[trigger] reached(m, b, k) by {
        let j = choose|j: int| 0 <= j < k && alias_edge(m, a[j], a[k]);
        assert(b[j] == a[j]);
    }
}

proof fn lemma_bounded_by(r: Seq<Seq<char>>, cand: Seq<Seq<char>>)
    requires
        r.no_duplicates(),
        forall|x: Seq<char>| r.contains(x) ==> #[trigger] cand.contains(x),
    ensures
        r.len() <= cand.len(),
{
    r.unique_seq_to_set();
    cand.lemma_cardinality_of_set();
    assert(r.to_set().subset_of(cand.to_set()));
    vstd::set_lib::lemma_len_subset(r.to_set(), cand.to_set());
}

/// Appends `x` unless `out` already holds it.
pub(crate) fn push_new(out: &mut Vec<String>, x: &String) -> (added: bool)
    ensures
        added == !views(old(out)@).contains(x@),
        views(final(out)@) == if added {
            views(old(out)@).push(x@)
        } else {
            views(old(out)@)
        },
{
    if contains_term(out, x) {
        false
    } else {
        let ghost prev = views(out@);
        out.push(x.clone());
        assert(views(out@) =~= prev.push(x@));
        true
    }
}

pub(crate) proof fn lemma_push_no_dup(r: Seq<Seq<char>>, x: Seq<char>)
    requires
        r.no_duplicates(),
        !r.contains(x),
    ensures
        r.push(x).no_duplicates(),
{
    let t = r.push(x);
    assert forall|a: int, b: int| 0 <= a < t.len() && 0 <= b < t.len() && a != b implies t[a]
        != t[b] by {
        if a == r.len() && b < r.len() {
            assert(r.contains(t[b]));
        } else if b == r.len() && a < r.len() {
            assert(r.contains(t[a]));
        }
    }
}

/// The given terms, each once, followed by every term reachable from them through
/// aliases (in either direction), each once.
pub fn expand_search_terms_with_aliases(terms: Vec<String>, alias_map: &AliasMap) -> (r: Vec<
    String,
>)
    ensures
        views(r@).no_duplicates(),
        first_occurrences(views(terms@)).len() <= r.len(),
        views(r@).subrange(0, first_occurrences(views(terms@)).len() as int) == first_occurrences(
            views(terms@),
        ),
        forall|k: int|
            first_occurrences(views(terms@)).len() <= k < r.len() ==> #[trigger] reached(
                alias_map@,
                views(r@),
                k,
            ),
        forall|x: Seq<char>, y: Seq<char>|
            views(r@).contains(x) && #[trigger] alias_edge(alias_map@, x, y) ==> views(
                r@,
            ).contains(y),
{
    let mut out: Vec<String> = Vec::new();
    let mut i: usize = 0;
    while i < terms.len()
        invariant
            i <= terms.len(),
            views(out@) == first_occurrences(views(terms@.subrange(0, i as int))),
            views(out@).no_duplicates(),
        decreases terms.len() - i,
    {
        proof {
            assert(views(terms@.subrange(0, i + 1)).drop_last() =~= views(terms@.subrange(0, i as int)));
            assert(views(terms@.subrange(0, i + 1)).last() == terms@[i as int]@);
        }
        let ghost prev = views(out@);
        let added = push_new(&mut out, &terms[i]);
        proof {
            if added {
                lemma_push_no_dup(prev, terms@[i as int]@);
            }
        }
        i = i + 1;
    }
    assert(terms@.subrange(0, terms.len() as int) =~= terms@);
    let ghost d = views(out@);
    let ghost m = alias_map@;
    let ghost cand = d + map_terms(m);
    let entries = &alias_map.entries;
    proof {
        assert(views(out@).subrange(0, d.len() as int) =~= d);
        assert forall|x: Seq<char>| views(out@).contains(x) implies #[trigger] cand.contains(x) by {
            let k = choose|k: int| 0 <= k < d.len() && d[k] == x;
            assert(cand[k] == x);
        }
        lemma_bounded_by(views(out@), cand);
    }
    let mut head: usize = 0;
    while head < out.len()
        invariant
            m == alias_map@,
            m == entry_views(entries@),
            cand == d + map_terms(m),
            views(out@).no_duplicates(),
            d.len() <= out.len(),
            views(out@).subrange(0, d.len() as int) == d,
            forall|x: Seq<char>| views(out@).contains(x) ==> #[trigger] cand.contains(x),
            out.len() <= cand.len(),
            head <= out.len(),
            forall|k: int| d.len() <= k < out.len() ==> #[trigger] reached(m, views(out@), k),
            forall|j: int, y: Seq<char>|
                0 <= j < head && #[trigger] alias_edge(m, views(out@)[j], y) ==> views(out@).contains(
                    y,
                ),
        decreases cand.len() - head,
    {
        let cur = out[head].clone();
        let ghost start = views(out@);
        let mut e: usize = 0;
        while e < entries.len()
            invariant
                m == entry_views(entries@),
                cand == d + map_terms(m),
                head < start.len(),
                cur@ == start[head as int],
                start.len() <= out.len(),
                views(out@).subrange(0, start.len() as int) == start,
                views(out@).no_duplicates(),
                forall|x: Seq<char>| views(out@).contains(x) ==> #[trigger] cand.contains(x),
                forall|k: int| start.len() <= k < out.len() ==> #[trigger] reached(m, views(out@), k),
                e <= entries.len(),
                forall|e2: int|
                    0 <= e2 < e ==> (#[trigger] m[e2].0 == cur@ ==> forall|y: Seq<char>|
                        m[e2].1.contains(y) ==> #[trigger] views(out@).contains(y)),
                forall|e2: int|
                    0 <= e2 < e ==> (#[trigger] m[e2].1.contains(cur@) ==> views(out@).contains(
                        m[e2].0,
                    )),
            decreases entries.len() - e,
        {
            let key = &entries[e].0;
            let aliases = &entries[e].1;
            proof {
                lemma_map_terms_has(m, e as int);
                assert(m[e as int].0 == key@);
                assert(m[e as int].1 == views(aliases@));
            }
            if key.eq(&cur) {
                let mut t: usize = 0;
                while t < aliases.len()
                    invariant
                        m == entry_views(entries@),
                        cand == d + map_terms(m),
                        e < entries.len(),
                        m[e as int].0 == key@,
                        m[e as int].1 == views(aliases@),
                        key@ == cur@,
                        head < start.len(),
                        cur@ == start[head as int],
                        start.len() <= out.len(),
                        views(out@).subrange(0, start.len() as int) == start,
                        views(out@).no_duplicates(),
                        forall|x: Seq<char>| views(out@).contains(x) ==> #[trigger] cand.contains(x),
                        forall|y: Seq<char>| m[e as int].1.contains(y) ==> #[trigger] map_terms(m).contains(y),
                        forall|k: int|
                            start.len() <= k < out.len() ==> #[trigger] reached(m, views(out@), k),
                        t <= aliases.len(),
                        forall|t2: int| 0 <= t2 < t ==> views(out@).contains(#[trigger] views(aliases@)[t2]),
                        forall|e2: int|
                            0 <= e2 < e ==> (#[trigger] m[e2].0 == cur@ ==> forall|y: Seq<char>|
                                m[e2].1.contains(y) ==> #[trigger] views(out@).contains(y)),
                        forall|e2: int|
                            0 <= e2 < e ==> (#[trigger] m[e2].1.contains(cur@) ==> views(
                                out@,
                            ).contains(m[e2].0)),
                    decreases aliases.len() - t,
                {
                    let ghost prev = views(out@);
                    let ghost y = aliases@[t as int]@;
                    let added = push_new(&mut out, &aliases[t]);
                    proof {
                        assert(views(aliases@)[t as int] == y);
                        assert(m[e as int].1.contains(y));
                        assert(map_terms(m).contains(y));
                        let mt = map_terms(m);
                        let w = choose|w: int| 0 <= w < mt.len() && mt[w] == y;
                        assert(cand[d.len() + w] == y);
                        if added {
                            lemma_push_no_dup(prev, y);
                            let now = views(out@);
                            assert(now[prev.len() as int] == y);
                            assert(now.subrange(0, prev.len() as int) =~= prev);
                            lemma_prefix_grow(m, prev, now);
                            assert(now.subrange(0, start.len() as int) =~= start);
                            assert(now[head as int] == cur@);
                            assert(alias_edge(m, now[head as int], now[prev.len() as int])) by {
                                assert(m[e as int].0 == now[head as int] && m[e as int].1.contains(now[prev.len() as int]));
                            }
                            assert(reached(m, now, prev.len() as int));
                            assert forall|x: Seq<char>| now.contains(x) implies #[trigger] cand.contains(x) by {
                                if x != y {
                                    let k = choose|k: int| 0 <= k < now.len() && now[k] == x;
                                    assert(prev[k] == x);
                                }
                            }
                        } else {
                            assert(prev.contains(y));
                        }
                    }
                    t = t + 1;
                }
                proof {
                    assert forall|y: Seq<char>| m[e as int].1.contains(y) implies #[trigger] views(out@).contains(y) by {
                        let t2 = choose|t2: int| 0 <= t2 < views(aliases@).len() && views(aliases@)[t2] == y;
                    }
                }
            }
            if contains_term(aliases, &cur) {
                let ghost prev = views(out@);
                let added = push_new(&mut out, key);
                proof {
                    assert(cand.contains(key@)) by {
                        let mt = map_terms(m);
                        let w = choose|w: int| 0 <= w < mt.len() && mt[w] == key@;
                        assert(cand[d.len() + w] == key@);
                    }
                    if added {
                        lemma_push_no_dup(prev, key@);
                        let now = views(out@);
                        assert(now[prev.len() as int] == key@);
                        assert(now.subrange(0, prev.len() as int) =~= prev);
                        lemma_prefix_grow(m, prev, now);
                        assert(now.subrange(0, start.len() as int) =~= start);
                        assert(now[head as int] == cur@);
                        assert(alias_edge(m, now[head as int], now[prev.len() as int])) by {
                            assert(m[e as int].0 == now[prev.len() as int] && m[e as int].1.contains(now[head as int]));
                        }
                        assert(reached(m, now, prev.len() as int));
                        assert forall|x: Seq<char>| now.contains(x) implies #[trigger] cand.contains(x) by {
                            if x != key@ {
                                let k = choose|k: int| 0 <= k < now.len() && now[k] == x;
                                assert(prev[k] == x);
                            }
                        }
                    } else {
                        assert(prev.contains(key@));
                    }
                }
            }
            e = e + 1;
        }
        proof {
            let now = views(out@);
            lemma_prefix_grow(m, start, now);
            assert(now.subrange(0, d.len() as int) =~= start.subrange(0, d.len() as int));
            assert forall|y: Seq<char>| #[trigger] alias_edge(m, now[head as int], y) implies now.contains(y) by {
                let e2 = choose|e2: int|
                    0 <= e2 < m.len() && ((#[trigger] m[e2].0 == now[head as int] && m[e2].1.contains(y)) || (m[e2].0 == y
                        && m[e2].1.contains(now[head as int])));
            }
            lemma_bounded_by(now, cand);
        }
        head = head + 1;
    }
    out
}

} // verus!
