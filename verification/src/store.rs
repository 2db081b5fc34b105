//! The store: an index from each distinct document text to its feature
//! vector, built once at construction, and ranked queries against it.
//!
//! The backing index is an ordered list of (text, vector) pairs: one entry
//! per distinct text, at the position of the text's first occurrence in the
//! corpus. Ranking therefore has a deterministic tie order: equal scores
//! come out in index order.

use vstd::prelude::*;

use crate::encoding::alpha_count;
use crate::encoding::counts_of;
use crate::encoding::FeatureVector;
use crate::score::bounded;
use crate::score::score;
use crate::score::score_cmp;
use crate::score::spec_score;
use crate::score::val_eq;
use crate::score::val_lt;
use crate::score::lemma_val_eq_lt;
use crate::score::lemma_val_eq_trans;
use crate::score::lemma_val_lt_eq;
use crate::score::lemma_val_lt_trans;
use crate::score::Rel;
use crate::score::Score;

verus! {

/// One ranked answer: a document's text and its score against the query.
pub struct ScoredResult {
    pub text: String,
    pub score: Score,
}

/// The views of a vector of strings.
pub open spec fn texts_of(docs: Seq<String>) -> Seq<Seq<char>> {
    Seq::new(docs.len(), |i: int| docs[i]@)
}

/// First-occurrence deduplication: the distinct texts of `docs`, each at
/// the position of its first occurrence.
pub open spec fn distinct_texts(docs: Seq<Seq<char>>) -> Seq<Seq<char>>
    decreases docs.len(),
{
    if docs.len() == 0 {
        Seq::empty()
    } else {
        let rest = distinct_texts(docs.drop_last());
        if rest.contains(docs.last()) {
            rest
        } else {
            rest.push(docs.last())
        }
    }
}

/// `(s1, k1)` ranks strictly before `(s2, k2)`: a larger score, or an equal
/// score and an earlier position in the index.
pub open spec fn ranked_before(s1: Score, k1: int, s2: Score, k2: int) -> bool {
    val_lt(s2, s1) || (val_eq(s1, s2) && k1 < k2)
}

/// The ranking order is transitive.
pub proof fn lemma_ranked_before_trans(s1: Score, k1: int, s2: Score, k2: int, s3: Score, k3: int)
    requires
        s1.valid(),
        s2.valid(),
        s3.valid(),
        ranked_before(s1, k1, s2, k2),
        ranked_before(s2, k2, s3, k3),
    ensures
        ranked_before(s1, k1, s3, k3),
{
    if val_lt(s2, s1) && val_lt(s3, s2) {
        lemma_val_lt_trans(s3, s2, s1);
    } else if val_lt(s2, s1) && val_eq(s2, s3) {
        lemma_val_eq_lt(s3, s2, s1);
    } else if val_eq(s1, s2) && val_lt(s3, s2) {
        lemma_val_lt_eq(s3, s2, s1);
    } else {
        lemma_val_eq_trans(s1, s2, s3);
    }
}

/// Some result in `results` holds the text `t`.
pub open spec fn among(results: Seq<ScoredResult>, t: Seq<char>) -> bool {
    exists|p: int| 0 <= p < results.len() && results[p].text@ == t
}

/// Decide the ranking order between index entries `k1` and `k2` with
/// scores `s1` and `s2`.
fn ranked_before_exec(s1: &Score, k1: usize, s2: &Score, k2: usize) -> (r: bool)
    requires
        s1.valid(),
        s2.valid(),
    ensures
        r == ranked_before(*s1, k1 as int, *s2, k2 as int),
{
    match score_cmp(s1, s2) {
        Rel::Gt => true,
        Rel::Eq => k1 < k2,
        Rel::Lt => false,
    }
}

/// How many entries of a boolean sequence are true.
pub open spec fn count_true(v: Seq<bool>) -> int
    decreases v.len(),
{
    if v.len() == 0 {
        0
    } else {
        count_true(v.drop_last()) + if v.last() {
            1int
        } else {
            0int
        }
    }
}

/// Setting one entry of a boolean sequence to true raises the true count by
/// one if the entry was false, else leaves it unchanged.
proof fn lemma_count_true_update(v: Seq<bool>, k: int)
    requires
        0 <= k < v.len(),
    ensures
        count_true(v.update(k, true)) == count_true(v) + if v[k] {
            0int
        } else {
            1int
        },
    decreases v.len(),
{
    if k == v.len() - 1 {
        assert(v.update(k, true).drop_last() =~= v.drop_last());
    } else {
        assert(v.update(k, true).drop_last() =~= v.drop_last().update(k, true));
        lemma_count_true_update(v.drop_last(), k);
    }
}

/// A boolean sequence that is true everywhere has a full true count.
proof fn lemma_count_true_full(v: Seq<bool>)
    requires
        forall|j: int| 0 <= j < v.len() ==> v[j],
    ensures
        count_true(v) == v.len(),
    decreases v.len(),
{
    if v.len() > 0 {
        assert(forall|j: int| 0 <= j < v.len() - 1 ==> v.drop_last()[j] == v[j]);
        lemma_count_true_full(v.drop_last());
    }
}

/// A document index: the corpus as supplied, and one (text, vector) entry
/// per distinct document text, in first-occurrence order.
pub struct VectorStore {
    pub documents: Vec<String>,
    pub keys: Vec<String>,
    pub vectors: Vec<FeatureVector>,
}

impl VectorStore {
    /// The corpus as supplied, in order, as texts.
    pub open spec fn corpus(&self) -> Seq<Seq<char>> {
        texts_of(self.documents@)
    }

    /// The indexed distinct texts, in first-occurrence order.
    pub open spec fn index_keys(&self) -> Seq<Seq<char>> {
        texts_of(self.keys@)
    }

    /// The index is intact: one vector per key, each vector encodes its key
    /// and is small enough for exact scoring, keys are distinct, and the
    /// keys are exactly the corpus' distinct texts in first-occurrence
    /// order.
    pub open spec fn wf(&self) -> bool {
        &&& self.vectors@.len() == self.keys@.len()
        &&& forall|k: int|
            0 <= k < self.keys@.len() ==> (#[trigger] self.vectors@[k]).encodes(self.keys@[k]@)
        &&& forall|k: int| 0 <= k < self.keys@.len() ==> bounded(#[trigger] self.vectors@[k]@)
        &&& forall|k1: int, k2: int|
            0 <= k1 < k2 < self.keys@.len() ==> self.keys@[k1]@ != self.keys@[k2]@
        &&& self.index_keys() == distinct_texts(self.corpus())
    }

    /// Some index entry holds the text `t`.
    pub open spec fn has_key(&self, t: Seq<char>) -> bool {
        exists|k: int| 0 <= k < self.keys@.len() && self.keys@[k]@ == t
    }

    /// The position of the index entry that holds the text `t`.
    pub open spec fn key_at(&self, t: Seq<char>) -> int {
        choose|k: int| 0 <= k < self.keys@.len() && self.keys@[k]@ == t
    }

    /// Score of index entry `k` against the query text `q`.
    pub open spec fn score_at(&self, q: Seq<char>, k: int) -> Score {
        spec_score(counts_of(q), self.vectors@[k]@)
    }

    /// With distinct keys, `key_at` inverts indexing.
    pub proof fn lemma_key_at(&self, k: int)
        requires
            self.wf(),
            0 <= k < self.keys@.len(),
        ensures
            self.has_key(self.keys@[k]@),
            self.key_at(self.keys@[k]@) == k,
    {
        let t = self.keys@[k]@;
        assert(0 <= k < self.keys@.len() && self.keys@[k]@ == t);
        let k2 = self.key_at(t);
        assert(0 <= k2 < self.keys@.len() && self.keys@[k2]@ == t);
    }

    /// Build the index: encode every document and keep one entry per
    /// distinct text, at its first occurrence. A later duplicate would
    /// carry an identical vector, so dropping it preserves the mapping.
    ///
    /// Texts are limited to `u32::MAX` ASCII letters each so that scores
    /// can be computed exactly (see [`bounded`]).
    pub fn new(documents: Vec<String>) -> (store: VectorStore)
        requires
            forall|i: int|
                0 <= i < documents@.len() ==> alpha_count((#[trigger] documents@[i])@)
                    <= u32::MAX as nat,
        ensures
            store.wf(),
            store.documents@ == documents@,
            store.index_keys() == distinct_texts(texts_of(documents@)),
    {
        let mut keys: Vec<String> = Vec::new();
        let mut vectors: Vec<FeatureVector> = Vec::new();
        let n = documents.len();
        let mut i: usize = 0;
        proof {
            assert(texts_of(documents@).take(0) =~= Seq::<Seq<char>>::empty());
        }
        while i < n
            invariant
                i <= n,
                n == documents@.len(),
                forall|ii: int|
                    0 <= ii < documents@.len() ==> alpha_count((#[trigger] documents@[ii])@)
                        <= u32::MAX as nat,
                vectors@.len() == keys@.len(),
                forall|k: int|
                    0 <= k < keys@.len() ==> (#[trigger] vectors@[k]).encodes(keys@[k]@),
                forall|k: int| 0 <= k < keys@.len() ==> bounded(#[trigger] vectors@[k]@),
                forall|k1: int, k2: int|
                    0 <= k1 < k2 < keys@.len() ==> keys@[k1]@ != keys@[k2]@,
                texts_of(keys@) == distinct_texts(texts_of(documents@).take(i as int)),
            decreases n - i,
        {
            let d = &documents[i];
            let m = keys.len();
            let mut found = false;
            let mut k: usize = 0;
            while k < m
                invariant
                    k <= m,
                    m == keys@.len(),
                    found <==> exists|k2: int| 0 <= k2 < k as int && (#[trigger] keys@[k2])@ == d@,
                decreases m - k,
            {
                if keys[k] == *d {
                    found = true;
                }
                k = k + 1;
            }
            let ghost prefix = texts_of(documents@).take(i as int);
            let ghost next = texts_of(documents@).take(i as int + 1);
            proof {
                assert(next.drop_last() =~= prefix);
                assert(next.last() == d@);
                // membership in the deduplicated prefix matches the scan
                if found {
                    let k2 = choose|k2: int| 0 <= k2 < m as int && (#[trigger] keys@[k2])@ == d@;
                    assert(texts_of(keys@)[k2] == d@);
                    assert(distinct_texts(prefix).contains(d@));
                } else {
                    if distinct_texts(prefix).contains(d@) {
                        let k2 = choose|k2: int|
                            0 <= k2 < texts_of(keys@).len() && texts_of(keys@)[k2] == d@;
                        assert((keys@[k2])@ == d@);
                    }
                }
            }
            if !found {
                let enc = FeatureVector::encode(d.as_str());
                keys.push(d.clone());
                vectors.push(enc);
                proof {
                    assert(texts_of(keys@) =~= distinct_texts(prefix).push(d@));
                }
            }
            i = i + 1;
        }
        proof {
            assert(texts_of(documents@).take(n as int) =~= texts_of(documents@));
        }
        VectorStore { documents, keys, vectors }
    }

    /// How many distinct document texts the index holds.
    pub fn distinct_count(&self) -> (c: usize)
        ensures
            c as int == self.index_keys().len(),
    {
        self.keys.len()
    }

    /// Rank every indexed document against the query and return the best
    /// `n`, by descending score, equal scores in index order. If `n`
    /// exceeds the number of distinct documents, all of them come back.
    /// A query with no ASCII letters has a zero vector and so, by the
    /// zero-vector convention, scores zero against every document.
    ///
    /// The result is pinned down exactly: it lists, in ranking order, the
    /// `min(n, distinct count)` best-ranked index entries, each with its
    /// exact score, and every omitted entry ranks after every returned one.
    pub fn top_n(&self, query: &str, n: usize) -> (results: Vec<ScoredResult>)
        requires
            self.wf(),
            alpha_count(query@) <= u32::MAX as nat,
        ensures
            results@.len() == (if n as int <= self.index_keys().len() as int {
                n as int
            } else {
                self.index_keys().len() as int
            }),
            forall|p: int| 0 <= p < results@.len() ==> self.has_key((#[trigger] results@[p]).text@),
            forall|p: int|
                0 <= p < results@.len() ==> (#[trigger] results@[p]).score == self.score_at(
                    query@,
                    self.key_at(results@[p].text@),
                ),
            forall|p1: int, p2: int|
                #![trigger results@[p1], results@[p2]]
                0 <= p1 < p2 < results@.len() ==> ranked_before(
                    results@[p1].score,
                    self.key_at(results@[p1].text@),
                    results@[p2].score,
                    self.key_at(results@[p2].text@),
                ),
            forall|p1: int, p2: int|
                #![trigger results@[p1].text, results@[p2].text]
                0 <= p1 < p2 < results@.len() ==> results@[p1].text@ != results@[p2].text@,
            forall|k: int, p: int|
                #![trigger self.keys@[k], results@[p]]
                0 <= k < self.index_keys().len() && !among(results@, self.keys@[k]@) && 0 <= p
                    < results@.len() ==> ranked_before(
                    results@[p].score,
                    self.key_at(results@[p].text@),
                    self.score_at(query@, k),
                    k,
                ),
    {
        let qv = FeatureVector::encode(query);
        proof {
            qv.lemma_encodes_counts_of(query@);
        }
        let m = self.keys.len();
        let mut scores: Vec<Score> = Vec::new();
        let mut k: usize = 0;
        while k < m
            invariant
                k <= m,
                self.wf(),
                m == self.keys@.len(),
                qv.wf(),
                bounded(qv@),
                qv@ == counts_of(query@),
                scores@.len() == k as int,
                forall|j: int|
                    0 <= j < k as int ==> (#[trigger] scores@[j]) == self.score_at(query@, j)
                        && scores@[j].valid(),
            decreases m - k,
        {
            let s = score(&qv, &self.vectors[k]);
            scores.push(s);
            k = k + 1;
        }
        let count = if n <= m {
            n
        } else {
            m
        };
        let mut taken: Vec<bool> = Vec::new();
        let mut t: usize = 0;
        while t < m
            invariant
                t <= m,
                taken@.len() == t as int,
                forall|j: int| 0 <= j < t as int ==> !(#[trigger] taken@[j]),
                count_true(taken@) == 0,
            decreases m - t,
        {
            proof {
                assert(taken@.push(false).drop_last() =~= taken@);
            }
            taken.push(false);
            t = t + 1;
        }
        let mut results: Vec<ScoredResult> = Vec::new();
        let ghost mut chosen: Seq<int> = Seq::empty();
        while results.len() < count
            invariant
                self.wf(),
                m == self.keys@.len(),
                count <= m,
                count as int == (if n as int <= m as int {
                    n as int
                } else {
                    m as int
                }),
                scores@.len() == m as int,
                forall|j: int|
                    0 <= j < m as int ==> (#[trigger] scores@[j]) == self.score_at(query@, j)
                        && scores@[j].valid(),
                taken@.len() == m as int,
                results@.len() == chosen.len(),
                chosen.len() <= count as int,
                count_true(taken@) == chosen.len(),
                forall|p: int| 0 <= p < chosen.len() ==> 0 <= #[trigger] chosen[p] < m as int,
                forall|p: int| 0 <= p < chosen.len() ==> taken@[#[trigger] chosen[p]],
                forall|p: int|
                    0 <= p < chosen.len() ==> (#[trigger] results@[p]).text@
                        == self.keys@[chosen[p]]@ && results@[p].score == scores@[chosen[p]],
                forall|j: int|
                    0 <= j < m as int && #[trigger] taken@[j] ==> exists|p: int|
                        0 <= p < chosen.len() && chosen[p] == j,
                forall|p1: int, p2: int|
                    #![trigger chosen[p1], chosen[p2]]
                    0 <= p1 < p2 < chosen.len() ==> ranked_before(
                        scores@[chosen[p1]],
                        chosen[p1],
                        scores@[chosen[p2]],
                        chosen[p2],
                    ),
                forall|p: int, j: int|
                    #![trigger chosen[p], taken@[j]]
                    0 <= p < chosen.len() && 0 <= j < m as int && !taken@[j] ==> ranked_before(
                        scores@[chosen[p]],
                        chosen[p],
                        scores@[j],
                        j,
                    ),
            decreases count - results.len(),
        {
            let mut best: usize = m;
            let mut j: usize = 0;
            while j < m
                invariant
                    j <= m,
                    m == self.keys@.len(),
                    scores@.len() == m as int,
                    taken@.len() == m as int,
                    forall|j2: int|
                        0 <= j2 < m as int ==> (#[trigger] scores@[j2]).valid(),
                    best == m || best < j,
                    best == m ==> forall|j2: int| 0 <= j2 < j as int ==> #[trigger] taken@[j2],
                    best < m ==> !taken@[best as int],
                    best < m ==> forall|j2: int|
                        0 <= j2 < j as int && j2 != best as int && !(#[trigger] taken@[j2])
                            ==> ranked_before(
                            scores@[best as int],
                            best as int,
                            scores@[j2],
                            j2,
                        ),
                decreases m - j,
            {
                if !taken[j] {
                    if best == m {
                        best = j;
                    } else {
                        let better = ranked_before_exec(&scores[j], j, &scores[best], best);
                        if better {
                            proof {
                                assert forall|j2: int|
                                    0 <= j2 < j as int + 1 && j2 != j as int && !(
                                    #[trigger] taken@[j2]) implies ranked_before(
                                    scores@[j as int],
                                    j as int,
                                    scores@[j2],
                                    j2,
                                ) by {
                                    if j2 == best as int {
                                    } else {
                                        lemma_ranked_before_trans(
                                            scores@[j as int],
                                            j as int,
                                            scores@[best as int],
                                            best as int,
                                            scores@[j2],
                                            j2,
                                        );
                                    }
                                }
                            }
                            best = j;
                        } else {
                            proof {
                                assert(ranked_before(
                                    scores@[best as int],
                                    best as int,
                                    scores@[j as int],
                                    j as int,
                                ));
                            }
                        }
                    }
                }
                j = j + 1;
            }
            proof {
                if best == m {
                    lemma_count_true_full(taken@);
                    assert(false);
                }
                lemma_count_true_update(taken@, best as int);
            }
            let ghost old_taken = taken@;
            let ghost old_chosen = chosen;
            taken[best] = true;
            let text = self.keys[best].clone();
            let sc = scores[best];
            results.push(ScoredResult { text, score: sc });
            proof {
                chosen = chosen.push(best as int);
                assert forall|jj: int| 0 <= jj < m as int && #[trigger] taken@[jj] implies exists|
                    p: int,
                |
                    0 <= p < chosen.len() && chosen[p] == jj by {
                    if jj == best as int {
                        assert(chosen[chosen.len() - 1] == jj);
                    } else {
                        assert(old_taken[jj]);
                        let p = choose|p: int| 0 <= p < old_chosen.len() && old_chosen[p] == jj;
                        assert(chosen[p] == jj);
                    }
                }
            }
        }
        proof {
            assert forall|p: int| 0 <= p < results@.len() implies self.has_key(
                (#[trigger] results@[p]).text@,
            ) && self.key_at(results@[p].text@) == chosen[p] by {
                self.lemma_key_at(chosen[p]);
            }
            assert forall|p1: int, p2: int|
                #![trigger chosen[p1], chosen[p2]]
                0 <= p1 < p2 < chosen.len() implies chosen[p1] != chosen[p2] by {
                if chosen[p1] == chosen[p2] {
                    assert(ranked_before(
                        scores@[chosen[p1]],
                        chosen[p1],
                        scores@[chosen[p2]],
                        chosen[p2],
                    ));
                }
            }
            assert forall|k2: int, p: int|
                #![trigger self.keys@[k2], results@[p]]
                0 <= k2 < self.index_keys().len() && !among(results@, self.keys@[k2]@) && 0 <= p
                    < results@.len() implies ranked_before(
                results@[p].score,
                self.key_at(results@[p].text@),
                self.score_at(query@, k2),
                k2,
            ) by {
                if taken@[k2] {
                    let p2 = choose|p2: int| 0 <= p2 < chosen.len() && chosen[p2] == k2;
                    assert(results@[p2].text@ == self.keys@[k2]@);
                    assert(among(results@, self.keys@[k2]@));
                }
            }
        }
        results
    }
}

} // verus!
