//! Cosine similarity between term-frequency vectors, computed exactly.
//!
//! The cosine of two texts is `dot / sqrt(norm_a * norm_b)`, where `dot` sums,
//! over the terms the texts share, the product of their counts, and each norm
//! is the sum of the squared counts of a text's terms. All three are integers,
//! so a score is kept as those integers and compared without rounding.
use vstd::prelude::*;
use vstd::arithmetic::div_mod::{lemma_fundamental_div_mod, lemma_mod_pos_bound};
use crate::terms::{fields, occurrences, lemma_occurrences_le, term_views, lookup, lemma_count_at, lemma_count_pos_has_entry, count_in, keys_unique, TermCount, TermVector};

verus! {

/// The number of pairs of positions `(i, j)` with `a[i] == b[j]`; this is the
/// sum, over every term, of its count in `a` times its count in `b`.
pub open spec fn pair_count(a: Seq<Seq<char>>, b: Seq<Seq<char>>) -> nat
    decreases a.len(),
{
    if a.len() == 0 {
        0
    } else {
        pair_count(a.drop_last(), b) + occurrences(b, a.last())
    }
}

/// The dot product of the term vectors of two texts.
pub open spec fn dot(a: Seq<char>, b: Seq<char>) -> nat {
    pair_count(fields(a), fields(b))
}

/// The squared magnitude of the term vector of a text: the sum of its squared counts.
pub open spec fn norm(a: Seq<char>) -> nat {
    pair_count(fields(a), fields(a))
}

/// The squared cosine of two texts as a fraction `(numerator, denominator)`.
/// Counts are never negative, so the cosine is the square root of this fraction.
pub open spec fn squared_cosine(a: Seq<char>, b: Seq<char>) -> (nat, nat) {
    (dot(a, b) * dot(a, b), norm(a) * norm(b))
}

proof fn lemma_pair_count_push_right(a: Seq<Seq<char>>, b: Seq<Seq<char>>, x: Seq<char>)
    ensures
        pair_count(a, b.push(x)) == pair_count(a, b) + occurrences(a, x),
    decreases a.len(),
{
    if a.len() > 0 {
        lemma_pair_count_push_right(a.drop_last(), b, x);
        assert(b.push(x).drop_last() =~= b);
    }
}

/// Counting matching pairs does not depend on which side is named first.
pub proof fn lemma_pair_count_symmetric(a: Seq<Seq<char>>, b: Seq<Seq<char>>)
    ensures
        pair_count(a, b) == pair_count(b, a),
    decreases a.len(),
{
    if a.len() > 0 {
        let x = a.last();
        let p = a.drop_last();
        lemma_pair_count_symmetric(p, b);
        lemma_pair_count_push_right(b, p, x);
        assert(p.push(x) =~= a);
    } else {
        lemma_pair_count_empty(b, a);
    }
}

proof fn lemma_pair_count_empty(a: Seq<Seq<char>>, b: Seq<Seq<char>>)
    requires
        b.len() == 0,
    ensures
        pair_count(a, b) == 0,
    decreases a.len(),
{
    if a.len() > 0 {
        lemma_pair_count_empty(a.drop_last(), b);
    }
}

/// The cosine of two texts is the same whichever is given first.
pub proof fn lemma_cosine_symmetric(a: Seq<char>, b: Seq<char>)
    ensures
        squared_cosine(a, b) == squared_cosine(b, a),
{
    lemma_pair_count_symmetric(fields(a), fields(b));
    assert(norm(a) * norm(b) == norm(b) * norm(a)) by (nonlinear_arith);
}

proof fn lemma_occurrences_absent(b: Seq<Seq<char>>, x: Seq<char>)
    requires
        !b.contains(x),
    ensures
        occurrences(b, x) == 0,
    decreases b.len(),
{
    if b.len() > 0 {
        assert(b.last() == b[b.len() - 1]);
        assert(!b.drop_last().contains(x)) by {
            if b.drop_last().contains(x) {
                let j = choose|j: int| 0 <= j < b.drop_last().len() && b.drop_last()[j] == x;
                assert(b[j] == x);
            }
        }
        lemma_occurrences_absent(b.drop_last(), x);
    }
}

/// Two texts with no field in common have a zero dot product.
pub proof fn lemma_dot_disjoint(a: Seq<char>, b: Seq<char>)
    requires
        forall|t: Seq<char>| fields(a).contains(t) ==> !fields(b).contains(t),
    ensures
        dot(a, b) == 0,
{
    lemma_pair_count_disjoint(fields(a), fields(b));
}

proof fn lemma_pair_count_disjoint(a: Seq<Seq<char>>, b: Seq<Seq<char>>)
    requires
        forall|t: Seq<char>| a.contains(t) ==> !b.contains(t),
    ensures
        pair_count(a, b) == 0,
    decreases a.len(),
{
    if a.len() > 0 {
        let p = a.drop_last();
        assert forall|t: Seq<char>| p.contains(t) implies !b.contains(t) by {
            let j = choose|j: int| 0 <= j < p.len() && p[j] == t;
            assert(a[j] == t);
        }
        lemma_pair_count_disjoint(p, b);
        assert(a.contains(a.last())) by {
            assert(a[a.len() - 1] == a.last());
        }
        lemma_occurrences_absent(b, a.last());
    }
}

proof fn lemma_occurrences_present(b: Seq<Seq<char>>, x: Seq<char>)
    requires
        b.contains(x),
    ensures
        occurrences(b, x) >= 1,
{
    let j = choose|j: int| 0 <= j < b.len() && b[j] == x;
    lemma_occurrences_pos(b, j);
}

proof fn lemma_pair_count_ge(a: Seq<Seq<char>>, b: Seq<Seq<char>>, i: int)
    requires
        0 <= i < a.len(),
    ensures
        pair_count(a, b) >= occurrences(b, a[i]),
    decreases a.len(),
{
    if i < a.len() - 1 {
        assert(a.drop_last()[i] == a[i]);
        lemma_pair_count_ge(a.drop_last(), b, i);
    }
}

/// Two texts with a field in common have a positive dot product.
pub proof fn lemma_dot_shared(a: Seq<char>, b: Seq<char>, t: Seq<char>)
    requires
        fields(a).contains(t),
        fields(b).contains(t),
    ensures
        dot(a, b) > 0,
{
    let i = choose|i: int| 0 <= i < fields(a).len() && fields(a)[i] == t;
    lemma_pair_count_ge(fields(a), fields(b), i);
    lemma_occurrences_present(fields(b), t);
}

/// Matching pairs are bounded by the number of all pairs.
pub proof fn lemma_pair_count_le(a: Seq<Seq<char>>, b: Seq<Seq<char>>)
    ensures
        pair_count(a, b) <= a.len() * b.len(),
    decreases a.len(),
{
    if a.len() > 0 {
        lemma_pair_count_le(a.drop_last(), b);
        lemma_occurrences_le(b, a.last());
        assert((a.len() - 1) * b.len() + b.len() == a.len() * b.len()) by (nonlinear_arith);
    }
}

proof fn lemma_occurrences_pos(a: Seq<Seq<char>>, i: int)
    requires
        0 <= i < a.len(),
    ensures
        occurrences(a, a[i]) >= 1,
    decreases a.len(),
{
    if i < a.len() - 1 {
        assert(a.drop_last()[i] == a[i]);
        lemma_occurrences_pos(a.drop_last(), i);
    }
}

/// The sum, over the entries of `e`, of the entry's count times the count of
/// its term in `w`.
pub open spec fn products(e: Seq<TermCount>, w: TermVector) -> nat
    decreases e.len(),
{
    if e.len() == 0 {
        0
    } else {
        products(e.drop_last(), w) + (e.last().count as nat) * w.count(e.last().term@)
    }
}

/// The sum of the squared counts of the entries of `e`.
pub open spec fn squares(e: Seq<TermCount>) -> nat
    decreases e.len(),
{
    if e.len() == 0 {
        0
    } else {
        squares(e.drop_last()) + (e.last().count as nat) * (e.last().count as nat)
    }
}

proof fn lemma_count_other(e: Seq<TermCount>, j: int, x: TermCount, t: Seq<char>)
    requires
        0 <= j < e.len(),
        x.term@ == e[j].term@,
        t != x.term@,
    ensures
        count_in(e.update(j, x), t) == count_in(e, t),
    decreases e.len(),
{
    if j != e.len() - 1 {
        assert(e.update(j, x).drop_last() =~= e.drop_last().update(j, x));
        lemma_count_other(e.drop_last(), j, x, t);
    } else {
        assert(e.update(j, x).drop_last() =~= e.drop_last());
    }
}

proof fn lemma_products_update(e: Seq<TermCount>, j: int, x: TermCount, w: TermVector)
    requires
        0 <= j < e.len(),
        x.term@ == e[j].term@,
        x.count + 1 == e[j].count,
    ensures
        products(e, w) == products(e.update(j, x), w) + w.count(x.term@),
    decreases e.len(),
{
    if j != e.len() - 1 {
        assert(e.update(j, x).drop_last() =~= e.drop_last().update(j, x));
        lemma_products_update(e.drop_last(), j, x, w);
    } else {
        assert(e.update(j, x).drop_last() =~= e.drop_last());
        let c = x.count as int;
        let k = w.count(x.term@) as int;
        assert((c + 1) * k == c * k + k) by (nonlinear_arith);
    }
}

proof fn lemma_products_zero(e: Seq<TermCount>, w: TermVector)
    requires
        forall|j: int| 0 <= j < e.len() ==> (#[trigger] e[j]).count == 0,
    ensures
        products(e, w) == 0,
    decreases e.len(),
{
    if e.len() > 0 {
        assert(e.last() == e[e.len() - 1]);
        assert forall|j: int| 0 <= j < e.drop_last().len() implies (#[trigger] e.drop_last()[j]).count == 0 by {
            assert(e.drop_last()[j] == e[j]);
        }
        lemma_products_zero(e.drop_last(), w);
    }
}

proof fn lemma_products_pairs(e: Seq<TermCount>, a: Seq<Seq<char>>, w: TermVector, b: Seq<Seq<char>>)
    requires
        keys_unique(e),
        forall|t: Seq<char>| #[trigger] count_in(e, t) == occurrences(a, t),
        w.counts(b),
    ensures
        products(e, w) == pair_count(a, b),
    decreases a.len(),
{
    if a.len() == 0 {
        assert forall|j: int| 0 <= j < e.len() implies (#[trigger] e[j]).count == 0 by {
            lemma_count_at(e, j);
            assert(count_in(e, e[j].term@) == occurrences(a, e[j].term@));
        }
        lemma_products_zero(e, w);
    } else {
        let x = a.last();
        let p = a.drop_last();
        assert(count_in(e, x) == occurrences(a, x));
        lemma_count_pos_has_entry(e, x);
        let j = choose|j: int| 0 <= j < e.len() && (#[trigger] e[j]).term@ == x;
        lemma_count_at(e, j);
        let y = TermCount { term: e[j].term, count: (e[j].count - 1) as u64 };
        let f = e.update(j, y);
        assert forall|t: Seq<char>| #[trigger] count_in(f, t) == occurrences(p, t) by {
            assert(count_in(e, t) == occurrences(a, t));
            if t == x {
                assert(f.update(j, e[j]) =~= e);
                assert forall|u: int, v: int| 0 <= u < f.len() && 0 <= v < f.len() && u != v
                    implies #[trigger] f[u].term@ != #[trigger] f[v].term@ by {
                    assert(f[u].term@ == e[u].term@ && f[v].term@ == e[v].term@);
                }
                lemma_count_at(f, j);
            } else {
                lemma_count_other(e, j, y, t);
            }
        }
        assert forall|u: int, v: int| 0 <= u < f.len() && 0 <= v < f.len() && u != v
            implies #[trigger] f[u].term@ != #[trigger] f[v].term@ by {
            assert(f[u].term@ == e[u].term@ && f[v].term@ == e[v].term@);
        }
        lemma_products_pairs(f, p, w, b);
        lemma_products_update(e, j, y, w);
        assert(w.count(x) == occurrences(b, x));
    }
}

proof fn lemma_products_squares(e: Seq<TermCount>, w: TermVector)
    requires
        forall|j: int| 0 <= j < e.len() ==> w.count((#[trigger] e[j]).term@) == e[j].count,
    ensures
        products(e, w) == squares(e),
    decreases e.len(),
{
    if e.len() > 0 {
        assert(e.last() == e[e.len() - 1]);
        assert forall|j: int| 0 <= j < e.drop_last().len() implies w.count((#[trigger] e.drop_last()[j]).term@) == e.drop_last()[j].count by {
            assert(e.drop_last()[j] == e[j]);
        }
        lemma_products_squares(e.drop_last(), w);
    }
}

/// Read over term vectors: the dot product of two texts is the sum, over the
/// query's terms, of the query's count times the document's count, and the
/// norm of a text is the sum of its squared counts.
pub proof fn lemma_dot_by_terms(qv: TermVector, dv: TermVector, q: Seq<char>, d: Seq<char>)
    requires
        qv.counts(fields(q)),
        dv.counts(fields(d)),
    ensures
        products(qv.entries@, dv) == dot(q, d),
        squares(qv.entries@) == norm(q),
{
    assert forall|t: Seq<char>| #[trigger] count_in(qv.entries@, t) == occurrences(fields(q), t) by {
        assert(qv.count(t) == occurrences(fields(q), t));
    }
    lemma_products_pairs(qv.entries@, fields(q), dv, fields(d));
    lemma_products_pairs(qv.entries@, fields(q), qv, fields(q));
    assert forall|j: int| 0 <= j < qv.entries@.len() implies qv.count((#[trigger] qv.entries@[j]).term@) == qv.entries@[j].count by {
        lemma_count_at(qv.entries@, j);
    }
    lemma_products_squares(qv.entries@, qv);
}

/// The largest number of fields that a text of at most `MAX_TEXT_CHARS` characters has.
pub const MAX_FIELDS: u64 = 4294967295;

/// The dot product of the tokens `q` with the vector `dv` of the tokens `d`.
pub(crate) fn dot_with(q: &Vec<Vec<char>>, dv: &TermVector, Ghost(d): Ghost<Seq<Seq<char>>>) -> (r: u64)
    requires
        dv.counts(d),
        q@.len() <= MAX_FIELDS,
        d.len() <= MAX_FIELDS,
    ensures
        r == pair_count(term_views(q@), d),
{
    let ghost tq = term_views(q@);
    let mut sum: u64 = 0;
    let mut i: usize = 0;
    while i < q.len()
        invariant
            i <= q@.len(),
            tq == term_views(q@),
            q@.len() <= MAX_FIELDS,
            d.len() <= MAX_FIELDS,
            dv.counts(d),
            sum == pair_count(tq.take(i as int), d),
        decreases q@.len() - i,
    {
        let c = lookup(dv, &q[i]);
        proof {
            let p = tq.take(i + 1);
            assert(p.drop_last() =~= tq.take(i as int));
            assert(p.last() == q@[i as int]@);
            assert(dv.count(q@[i as int]@) == occurrences(d, q@[i as int]@));
            lemma_pair_count_le(p, d);
            let n = i + 1;
            let m = d.len();
            assert(n * m <= MAX_FIELDS * MAX_FIELDS) by (nonlinear_arith)
                requires n <= MAX_FIELDS, m <= MAX_FIELDS;
        }
        sum = sum + c;
        i = i + 1;
    }
    assert(tq.take(q@.len() as int) =~= tq);
    sum
}

/// Whether `a / b < c / d`, decided without multiplying.
fn fraction_lt(a: u128, b: u128, c: u128, d: u128) -> (r: bool)
    requires
        b > 0,
        d > 0,
    ensures
        r == (a * d < c * b),
    decreases b + d,
{
    let qa = a / b;
    let qc = c / d;
    let ra = a % b;
    let rc = c % d;
    proof {
        lemma_fundamental_div_mod(a as int, b as int);
        lemma_fundamental_div_mod(c as int, d as int);
        lemma_mod_pos_bound(a as int, b as int);
        lemma_mod_pos_bound(c as int, d as int);
    }
    let ghost (ai, bi, ci, di, qai, qci, rai, rci) = (a as int, b as int, c as int, d as int, qa as int, qc as int, ra as int, rc as int);
    if qa < qc {
        assert(ai * di < ci * bi) by (nonlinear_arith)
            requires ai == bi * qai + rai, ci == di * qci + rci, 0 <= rai < bi, 0 <= rci < di, qai < qci, 0 <= qai;
        return true;
    }
    if qa > qc {
        assert(ai * di > ci * bi) by (nonlinear_arith)
            requires ai == bi * qai + rai, ci == di * qci + rci, 0 <= rai < bi, 0 <= rci < di, qai > qci, 0 <= qci;
        return false;
    }
    assert(ai * di - ci * bi == rai * di - rci * bi) by (nonlinear_arith)
        requires ai == bi * qai + rai, ci == di * qci + rci, qai == qci;
    if rc == 0 {
        assert(rai * di >= 0) by (nonlinear_arith) requires rai >= 0, di > 0;
        return false;
    }
    if ra == 0 {
        assert(rci * bi > 0) by (nonlinear_arith) requires rci > 0, bi > 0;
        return true;
    }
    let r = fraction_lt(d, rc, b, ra);
    assert(di * rai == rai * di && bi * rci == rci * bi) by (nonlinear_arith);
    r
}

proof fn lemma_fraction_le_lt(na: int, da: int, nb: int, db: int, nc: int, dc: int)
    requires
        da > 0,
        db > 0,
        dc > 0,
        na * db <= nb * da,
        nb * dc < nc * db,
    ensures
        na * dc < nc * da,
{
    assert(na * db * dc <= nb * da * dc) by (nonlinear_arith)
        requires na * db <= nb * da, dc > 0;
    assert(nb * dc * da < nc * db * da) by (nonlinear_arith)
        requires nb * dc < nc * db, da > 0;
    assert((na * dc) * db < (nc * da) * db) by (nonlinear_arith)
        requires na * db * dc <= nb * da * dc, nb * dc * da < nc * db * da;
    assert(na * dc < nc * da) by (nonlinear_arith)
        requires (na * dc) * db < (nc * da) * db, db > 0;
}

/// A score no greater than one that is below a third is itself below the third.
pub proof fn lemma_score_le_lt(a: Score, b: Score, c: Score)
    requires
        b.ge(a),
        b.lt(c),
    ensures
        a.lt(c),
{
    lemma_fraction_le_lt(
        a.numerator() as int, a.denominator() as int,
        b.numerator() as int, b.denominator() as int,
        c.numerator() as int, c.denominator() as int,
    );
}

/// An exact cosine similarity `dot / sqrt(query_norm * doc_norm)`.
#[derive(Clone, Copy, Debug, PartialEq, Eq, Structural)]
pub struct Score {
    /// Sum, over shared terms, of the product of their counts.
    pub dot: u64,
    /// Sum of the squared counts of the query's terms.
    pub query_norm: u64,
    /// Sum of the squared counts of the document's terms.
    pub doc_norm: u64,
}

impl Score {
    /// The square of the score's value is `numerator() / denominator()`;
    /// a score with a zero norm counts as zero.
    pub open spec fn numerator(self) -> nat {
        if self.query_norm * self.doc_norm == 0 {
            0
        } else {
            (self.dot * self.dot) as nat
        }
    }

    pub open spec fn denominator(self) -> nat {
        if self.query_norm * self.doc_norm == 0 {
            1
        } else {
            (self.query_norm * self.doc_norm) as nat
        }
    }

    /// The value of `self` is strictly less than that of `other`.
    pub open spec fn lt(self, other: Score) -> bool {
        self.numerator() * other.denominator() < other.numerator() * self.denominator()
    }

    /// The value of `self` is at least that of `other`.
    pub open spec fn ge(self, other: Score) -> bool {
        !self.lt(other)
    }

    /// The score of `query` against `doc`.
    pub open spec fn is_cosine(self, query: Seq<char>, doc: Seq<char>) -> bool {
        &&& self.dot == dot(query, doc)
        &&& self.query_norm == norm(query)
        &&& self.doc_norm == norm(doc)
    }

    /// Compares two scores by value, exactly.
    pub fn less_than(&self, other: &Score) -> (r: bool)
        ensures
            r == self.lt(*other),
    {
        let (na, da) = self.fraction();
        let (nb, db) = other.fraction();
        fraction_lt(na, da, nb, db)
    }

    fn fraction(&self) -> (r: (u128, u128))
        ensures
            r.0 == self.numerator(),
            r.1 == self.denominator(),
            r.1 > 0,
    {
        let q = self.query_norm as u128;
        let d = self.doc_norm as u128;
        let x = self.dot as u128;
        assert(q * d <= 0xffff_ffff_ffff_ffffu128 * 0xffff_ffff_ffff_ffffu128) by (nonlinear_arith)
            requires q <= 0xffff_ffff_ffff_ffffu128, d <= 0xffff_ffff_ffff_ffffu128;
        assert(x * x <= 0xffff_ffff_ffff_ffffu128 * 0xffff_ffff_ffff_ffffu128) by (nonlinear_arith)
            requires x <= 0xffff_ffff_ffff_ffffu128;
        let den = q * d;
        if den == 0 {
            (0, 1)
        } else {
            (x * x, den)
        }
    }
}

} // verus!
