//! Tokenization of text into space-separated fields.
use vstd::prelude::*;

verus! {

/// The longest text, in characters, that the index accepts. It keeps every
/// count below `2^32`, so products of two counts fit in 64 bits.
pub const MAX_TEXT_CHARS: usize = 4294967294;

/// The fields of `s`: the pieces between single ASCII spaces, in order.
/// Splitting the empty text yields one empty field, and every pair of
/// adjacent spaces yields an empty field between them.
pub open spec fn fields(s: Seq<char>) -> Seq<Seq<char>>
    decreases s.len(),
{
    if s.len() == 0 {
        seq![Seq::<char>::empty()]
    } else {
        let prev = fields(s.drop_last());
        if s.last() == ' ' {
            prev.push(Seq::<char>::empty())
        } else {
            prev.update(prev.len() - 1, prev.last().push(s.last()))
        }
    }
}

/// There is at least one field, and at most one more than there are characters.
pub proof fn lemma_fields_len(s: Seq<char>)
    ensures
        1 <= fields(s).len() <= s.len() + 1,
    decreases s.len(),
{
    if s.len() > 0 {
        lemma_fields_len(s.drop_last());
    }
}

/// The character sequences of a sequence of terms.
pub open spec fn term_views(v: Seq<Vec<char>>) -> Seq<Seq<char>> {
    v.map_values(|x: Vec<char>| x@)
}

/// Splits `text` at every space character.
pub fn split_fields(text: &String) -> (r: Vec<Vec<char>>)
    ensures
        term_views(r@) == fields(text@),
{
    let mut done: Vec<Vec<char>> = Vec::new();
    let mut current: Vec<char> = Vec::new();
    let ghost s = text@;
    for c in it: text.chars()
        invariant
            it.seq() == s,
            done@.len() + 1 == fields(s.take(it.index() as int)).len(),
            forall|i: int| 0 <= i < done@.len() ==> #[trigger] done@[i]@ == fields(s.take(it.index() as int))[i],
            current@ == fields(s.take(it.index() as int)).last(),
    {
        proof {
            lemma_fields_len(s.take(it.index() as int));
            assert(s.take(it.index() + 1).drop_last() =~= s.take(it.index() as int));
        }
        if c == ' ' {
            done.push(current);
            current = Vec::new();
        } else {
            current.push(c);
        }
    }
    proof {
        assert(s.take(s.len() as int) =~= s);
    }
    done.push(current);
    assert(term_views(done@) =~= fields(s));
    done
}


/// How many of `toks` equal `t`.
pub open spec fn occurrences(toks: Seq<Seq<char>>, t: Seq<char>) -> nat
    decreases toks.len(),
{
    if toks.len() == 0 {
        0
    } else {
        occurrences(toks.drop_last(), t) + if toks.last() == t { 1nat } else { 0nat }
    }
}

/// A token never occurs more often than the sequence is long.
pub proof fn lemma_occurrences_le(toks: Seq<Seq<char>>, t: Seq<char>)
    ensures
        occurrences(toks, t) <= toks.len(),
    decreases toks.len(),
{
    if toks.len() > 0 {
        lemma_occurrences_le(toks.drop_last(), t);
    }
}

/// Whether the two terms hold the same characters.
pub fn same_term(a: &Vec<char>, b: &Vec<char>) -> (r: bool)
    ensures
        r == (a@ == b@),
{
    if a.len() != b.len() {
        return false;
    }
    let mut i: usize = 0;
    while i < a.len()
        invariant
            a@.len() == b@.len(),
            i <= a@.len(),
            forall|j: int| 0 <= j < i ==> a@[j] == b@[j],
        decreases a@.len() - i,
    {
        if a[i] != b[i] {
            return false;
        }
        i = i + 1;
    }
    assert(a@ =~= b@);
    true
}

/// A term paired with how often it occurs.
pub struct TermCount {
    pub term: Vec<char>,
    pub count: u64,
}

/// A term-frequency vector: each distinct term with its occurrence count.
pub struct TermVector {
    pub entries: Vec<TermCount>,
}

/// The count recorded for `t` in `e`, or zero when `t` has no entry.
pub open spec fn count_in(e: Seq<TermCount>, t: Seq<char>) -> nat
    decreases e.len(),
{
    if e.len() == 0 {
        0
    } else if e.last().term@ == t {
        e.last().count as nat
    } else {
        count_in(e.drop_last(), t)
    }
}

/// The sum of all counts in `e`.
pub open spec fn total(e: Seq<TermCount>) -> nat
    decreases e.len(),
{
    if e.len() == 0 {
        0
    } else {
        total(e.drop_last()) + e.last().count as nat
    }
}

/// No two entries of `e` hold the same term.
pub open spec fn keys_unique(e: Seq<TermCount>) -> bool {
    forall|i: int, j: int|
        0 <= i < e.len() && 0 <= j < e.len() && i != j ==> #[trigger] e[i].term@ != #[trigger] e[j].term@
}

impl TermVector {
    /// The count of `t` in this vector.
    pub open spec fn count(&self, t: Seq<char>) -> nat {
        count_in(self.entries@, t)
    }

    /// The sum of all counts.
    pub open spec fn total(&self) -> nat {
        total(self.entries@)
    }

    /// Distinct terms, each with a count of at least one, and the vector
    /// counts exactly the tokens of `toks`.
    pub open spec fn counts(&self, toks: Seq<Seq<char>>) -> bool {
        &&& keys_unique(self.entries@)
        &&& forall|j: int| 0 <= j < self.entries@.len() ==> #[trigger] self.entries@[j].count >= 1
        &&& forall|t: Seq<char>| #[trigger] self.count(t) == occurrences(toks, t)
    }

    /// Whether the vector has an entry for `t`.
    pub open spec fn holds(&self, t: Seq<char>) -> bool {
        exists|j: int| 0 <= j < self.entries@.len() && #[trigger] self.entries@[j].term@ == t
    }

    /// The vector as a map from each term it holds to its count.
    pub open spec fn as_map(&self) -> Map<Seq<char>, nat> {
        Map::new(|t: Seq<char>| self.holds(t), |t: Seq<char>| self.count(t))
    }
}

/// Each distinct token of `toks`, mapped to how often it occurs.
pub open spec fn frequencies(toks: Seq<Seq<char>>) -> Map<Seq<char>, nat> {
    Map::new(|t: Seq<char>| toks.contains(t), |t: Seq<char>| occurrences(toks, t))
}

/// A token occurs a positive number of times exactly when it is present.
pub proof fn lemma_occurrences_pos_iff(toks: Seq<Seq<char>>, t: Seq<char>)
    ensures
        occurrences(toks, t) > 0 <==> toks.contains(t),
    decreases toks.len(),
{
    if toks.len() > 0 {
        let p = toks.drop_last();
        lemma_occurrences_pos_iff(p, t);
        if p.contains(t) {
            let j = choose|j: int| 0 <= j < p.len() && p[j] == t;
            assert(toks[j] == t);
        }
        if toks.contains(t) && toks.last() != t {
            let j = choose|j: int| 0 <= j < toks.len() && toks[j] == t;
            assert(j != toks.len() - 1);
            assert(p[j] == t);
        }
        if toks.last() == t {
            assert(toks[toks.len() - 1] == t);
        }
    }
}

/// A positive recorded count comes from an entry for that term.
pub proof fn lemma_count_pos_has_entry(e: Seq<TermCount>, t: Seq<char>)
    requires
        count_in(e, t) > 0,
    ensures
        exists|j: int| 0 <= j < e.len() && (#[trigger] e[j]).term@ == t,
    decreases e.len(),
{
    if e.last().term@ == t {
        assert(e[e.len() - 1].term@ == t);
    } else {
        lemma_count_pos_has_entry(e.drop_last(), t);
        let j = choose|j: int| 0 <= j < e.drop_last().len() && (#[trigger] e.drop_last()[j]).term@ == t;
        assert(e[j] == e.drop_last()[j]);
    }
}

proof fn lemma_total_ge_len(e: Seq<TermCount>)
    requires
        forall|j: int| 0 <= j < e.len() ==> #[trigger] e[j].count >= 1,
    ensures
        total(e) >= e.len(),
    decreases e.len(),
{
    if e.len() > 0 {
        assert(e[e.len() - 1].count >= 1);
        assert forall|j: int| 0 <= j < e.drop_last().len() implies #[trigger] e.drop_last()[j].count >= 1 by {
            assert(e.drop_last()[j] == e[j]);
        }
        lemma_total_ge_len(e.drop_last());
    }
}

/// A vector that counts `toks` holds exactly the distinct tokens of `toks`,
/// each with its number of occurrences, and has no more entries than tokens.
pub proof fn lemma_counts_map(v: TermVector, toks: Seq<Seq<char>>)
    requires
        v.counts(toks),
        v.total() == toks.len(),
    ensures
        v.as_map() == frequencies(toks),
        v.entries@.len() <= toks.len(),
{
    assert forall|t: Seq<char>| v.holds(t) <==> toks.contains(t) by {
        lemma_occurrences_pos_iff(toks, t);
        assert(v.count(t) == occurrences(toks, t));
        if v.holds(t) {
            let j = choose|j: int| 0 <= j < v.entries@.len() && #[trigger] v.entries@[j].term@ == t;
            lemma_count_at(v.entries@, j);
            assert(v.entries@[j].count >= 1);
        }
        if toks.contains(t) {
            lemma_count_pos_has_entry(v.entries@, t);
        }
    }
    assert(v.as_map() =~= frequencies(toks));
    lemma_total_ge_len(v.entries@);
}

/// Texts whose fields are the same up to order have equal term vectors.
pub proof fn lemma_order_irrelevant(v: TermVector, w: TermVector, a: Seq<char>, b: Seq<char>)
    requires
        v.counts(fields(a)),
        v.total() == fields(a).len(),
        w.counts(fields(b)),
        w.total() == fields(b).len(),
        fields(a).to_multiset() == fields(b).to_multiset(),
    ensures
        v.as_map() == w.as_map(),
{
    lemma_counts_map(v, fields(a));
    lemma_counts_map(w, fields(b));
    assert forall|t: Seq<char>| occurrences(fields(a), t) == occurrences(fields(b), t) by {
        lemma_occurrences_multiset(fields(a), t);
        lemma_occurrences_multiset(fields(b), t);
    }
    assert forall|t: Seq<char>| fields(a).contains(t) <==> fields(b).contains(t) by {
        lemma_occurrences_pos_iff(fields(a), t);
        lemma_occurrences_pos_iff(fields(b), t);
    }
    assert(frequencies(fields(a)) =~= frequencies(fields(b)));
}

proof fn lemma_occurrences_multiset(toks: Seq<Seq<char>>, t: Seq<char>)
    ensures
        occurrences(toks, t) == toks.to_multiset().count(t),
    decreases toks.len(),
{
    broadcast use vstd::seq_lib::group_to_multiset_ensures;
    if toks.len() > 0 {
        lemma_occurrences_multiset(toks.drop_last(), t);
        assert(toks =~= toks.drop_last().push(toks.last()));
    }
}

/// With distinct terms, an entry's count is the count recorded for its term.
pub proof fn lemma_count_at(e: Seq<TermCount>, j: int)
    requires
        keys_unique(e),
        0 <= j < e.len(),
    ensures
        count_in(e, e[j].term@) == e[j].count,
    decreases e.len(),
{
    if j != e.len() - 1 {
        assert(e.drop_last()[j] == e[j]);
        lemma_count_at(e.drop_last(), j);
    }
}

proof fn lemma_count_absent(e: Seq<TermCount>, t: Seq<char>)
    requires
        forall|j: int| 0 <= j < e.len() ==> #[trigger] e[j].term@ != t,
    ensures
        count_in(e, t) == 0,
    decreases e.len(),
{
    if e.len() > 0 {
        assert(e.last().term@ != t);
        assert forall|j: int| 0 <= j < e.drop_last().len() implies #[trigger] e.drop_last()[j].term@ != t by {
            assert(e.drop_last()[j] == e[j]);
        }
        lemma_count_absent(e.drop_last(), t);
    }
}

proof fn lemma_count_bumped(e: Seq<TermCount>, j: int, x: TermCount, t: Seq<char>)
    requires
        keys_unique(e),
        0 <= j < e.len(),
        x.term@ == e[j].term@,
        x.count == e[j].count + 1,
    ensures
        count_in(e.update(j, x), t) == count_in(e, t) + if t == x.term@ { 1nat } else { 0nat },
        total(e.update(j, x)) == total(e) + 1,
    decreases e.len(),
{
    if j == e.len() - 1 {
        assert(e.update(j, x).drop_last() =~= e.drop_last());
    } else {
        let d = e.drop_last();
        assert(e.update(j, x).drop_last() =~= d.update(j, x));
        assert(d[j] == e[j]);
        assert(e.last() == e[e.len() - 1]);
        lemma_count_bumped(d, j, x, t);
    }
}

/// The position of the entry for `t`, if there is one.
fn find_term(v: &TermVector, t: &Vec<char>) -> (r: Option<usize>)
    ensures
        r matches Some(j) ==> j < v.entries@.len() && v.entries@[j as int].term@ == t@,
        r is None ==> forall|j: int| 0 <= j < v.entries@.len() ==> #[trigger] v.entries@[j].term@ != t@,
{
    let mut i: usize = 0;
    while i < v.entries.len()
        invariant
            i <= v.entries@.len(),
            forall|j: int| 0 <= j < i ==> #[trigger] v.entries@[j].term@ != t@,
        decreases v.entries@.len() - i,
    {
        if same_term(&v.entries[i].term, t) {
            return Some(i);
        }
        i = i + 1;
    }
    None
}

/// The recorded count of `t`, or zero.
pub fn lookup(v: &TermVector, t: &Vec<char>) -> (r: u64)
    requires
        keys_unique(v.entries@),
    ensures
        r == v.count(t@),
{
    match find_term(v, t) {
        Some(j) => {
            proof {
                lemma_count_at(v.entries@, j as int);
            }
            v.entries[j].count
        },
        None => {
            proof {
                lemma_count_absent(v.entries@, t@);
            }
            0
        },
    }
}

/// Counts how often each distinct token of `toks` occurs.
pub fn count_tokens(toks: &Vec<Vec<char>>) -> (v: TermVector)
    ensures
        v.counts(term_views(toks@)),
        v.total() == toks@.len(),
{
    let ghost tv = term_views(toks@);
    let mut v = TermVector { entries: Vec::new() };
    let mut k: usize = 0;
    while k < toks.len()
        invariant
            k <= toks@.len(),
            tv == term_views(toks@),
            v.counts(tv.take(k as int)),
            v.total() == k,
            forall|j: int| 0 <= j < v.entries@.len() ==> #[trigger] v.entries@[j].count <= k,
        decreases toks@.len() - k,
    {
        let t = &toks[k];
        let ghost before = v.entries@;
        let ghost old_v = v;
        proof {
            assert(tv.take(k + 1).drop_last() =~= tv.take(k as int));
            assert(tv.take(k + 1).last() == t@);
        }
        match find_term(&v, t) {
            Some(j) => {
                let c = v.entries[j].count;
                v.entries[j].count = c + 1;
                proof {
                    lemma_count_bumped(before, j as int, v.entries@[j as int], t@);
                    assert(v.entries@ == before.update(j as int, v.entries@[j as int]));
                    assert forall|a: int, b: int|
                        0 <= a < v.entries@.len() && 0 <= b < v.entries@.len() && a != b implies
                        #[trigger] v.entries@[a].term@ != #[trigger] v.entries@[b].term@ by {
                        assert(v.entries@[a].term@ == before[a].term@);
                        assert(v.entries@[b].term@ == before[b].term@);
                    }
                    assert forall|u: Seq<char>| #[trigger] v.count(u) == occurrences(tv.take(k + 1), u) by {
                        assert(old_v.count(u) == occurrences(tv.take(k as int), u));
                        lemma_count_bumped(before, j as int, v.entries@[j as int], u);
                    }
                }
            },
            None => {
                v.entries.push(TermCount { term: t.clone(), count: 1 });
                proof {
                    assert(v.entries@.drop_last() =~= before);
                    assert forall|a: int, b: int|
                        0 <= a < v.entries@.len() && 0 <= b < v.entries@.len() && a != b implies
                        #[trigger] v.entries@[a].term@ != #[trigger] v.entries@[b].term@ by {
                        if a < before.len() && b < before.len() {
                            assert(v.entries@[a] == before[a]);
                            assert(v.entries@[b] == before[b]);
                        }
                    }
                    assert(v.entries@.last().term@ == t@);
                    lemma_count_absent(before, t@);
                    assert forall|u: Seq<char>| #[trigger] v.count(u) == occurrences(tv.take(k + 1), u) by {
                        assert(old_v.count(u) == occurrences(tv.take(k as int), u));
                        assert(v.entries@.drop_last() =~= before);
                    }
                }
            },
        }
        k = k + 1;
    }
    assert(tv.take(toks@.len() as int) =~= tv);
    v
}

/// The term-frequency vector of `text`: every field with how often it occurs.
pub fn term_frequency(text: &String) -> (v: TermVector)
    ensures
        v.counts(fields(text@)),
        v.total() == fields(text@).len(),
        v.as_map() == frequencies(fields(text@)),
        1 <= v.entries@.len() <= fields(text@).len(),
{
    let toks = split_fields(text);
    let v = count_tokens(&toks);
    proof {
        lemma_counts_map(v, fields(text@));
        lemma_fields_len(text@);
        let f = fields(text@);
        lemma_occurrences_pos_iff(f, f[0]);
        assert(f.contains(f[0]));
        assert(v.count(f[0]) == occurrences(f, f[0]));
        lemma_count_pos_has_entry(v.entries@, f[0]);
    }
    v
}

} // verus!
