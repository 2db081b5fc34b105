//! The encoder: a text maps to a vector of 26 letter counts.

use vstd::prelude::*;

verus! {

/// True of the 26 ASCII letters, in either case.
pub open spec fn is_ascii_letter(c: char) -> bool {
    (97 <= c as int && c as int <= 122) || (65 <= c as int && c as int <= 90)
}

/// Alphabet position of an ASCII letter, case folded:
/// 'a' and 'A' are 0, 'z' and 'Z' are 25.
pub open spec fn letter_index(c: char) -> int
    recommends
        is_ascii_letter(c),
{
    if c as int >= 97 {
        c as int - 97
    } else {
        c as int - 65
    }
}

/// How many characters of `s` are ASCII letters with alphabet position `j`.
pub open spec fn letter_count(s: Seq<char>, j: int) -> nat
    decreases s.len(),
{
    if s.len() == 0 {
        0
    } else {
        letter_count(s.drop_last(), j) + if is_ascii_letter(s.last()) && letter_index(s.last())
            == j {
            1nat
        } else {
            0nat
        }
    }
}

/// How many characters of `s` are ASCII letters.
pub open spec fn alpha_count(s: Seq<char>) -> nat
    decreases s.len(),
{
    if s.len() == 0 {
        0
    } else {
        alpha_count(s.drop_last()) + if is_ascii_letter(s.last()) {
            1nat
        } else {
            0nat
        }
    }
}

/// Sum of the entries of a count vector.
pub open spec fn count_sum(v: Seq<u64>) -> int
    decreases v.len(),
{
    if v.len() == 0 {
        0
    } else {
        count_sum(v.drop_last()) + v.last()
    }
}

/// The 26 letter counts of a text, as vector entries.
pub open spec fn counts_of(s: Seq<char>) -> Seq<u64> {
    Seq::new(26, |j: int| letter_count(s, j) as u64)
}

/// A count of one letter never exceeds the length of the text.
pub proof fn lemma_letter_count_le_len(s: Seq<char>, j: int)
    ensures
        letter_count(s, j) <= s.len(),
    decreases s.len(),
{
    if s.len() > 0 {
        lemma_letter_count_le_len(s.drop_last(), j);
    }
}

/// The count of ASCII letters never exceeds the length of the text.
pub proof fn lemma_alpha_count_le_len(s: Seq<char>)
    ensures
        alpha_count(s) <= s.len(),
    decreases s.len(),
{
    if s.len() > 0 {
        lemma_alpha_count_le_len(s.drop_last());
    }
}

/// Replacing one entry of a count vector changes the sum by the difference.
pub proof fn lemma_count_sum_update(v: Seq<u64>, k: int, x: u64)
    requires
        0 <= k < v.len(),
    ensures
        count_sum(v.update(k, x)) == count_sum(v) - v[k] + x,
    decreases v.len(),
{
    if k == v.len() - 1 {
        assert(v.update(k, x).drop_last() =~= v.drop_last());
    } else {
        assert(v.update(k, x).drop_last() =~= v.drop_last().update(k, x));
        lemma_count_sum_update(v.drop_last(), k, x);
    }
}

/// A fixed-length vector of per-letter occurrence counts for a text.
pub struct FeatureVector {
    pub counts: Vec<u64>,
}

impl View for FeatureVector {
    type V = Seq<u64>;

    open spec fn view(&self) -> Seq<u64> {
        self.counts@
    }
}

impl FeatureVector {
    /// The vector always has exactly 26 entries.
    pub open spec fn wf(&self) -> bool {
        self@.len() == 26
    }

    /// The vector holds, for each alphabet position, how often a letter of
    /// that position occurs in `s`.
    pub open spec fn encodes(&self, s: Seq<char>) -> bool {
        &&& self@.len() == 26
        &&& forall|j: int| 0 <= j < 26 ==> #[trigger] self@[j] as nat == letter_count(s, j)
    }

    /// A vector that encodes a text is exactly the text's count vector.
    pub proof fn lemma_encodes_counts_of(&self, s: Seq<char>)
        requires
            self.encodes(s),
        ensures
            self@ =~= counts_of(s),
    {
        assert forall|j: int| 0 <= j < 26 implies self@[j] == counts_of(s)[j] by {
            assert(self@[j] as nat == letter_count(s, j));
        }
    }

    /// Encode a text: count, per alphabet position, the ASCII letters of the
    /// text, in either case; every other character is ignored.
    ///
    /// The sum of the counts equals the number of ASCII letters in the text.
    pub fn encode(text: &str) -> (v: FeatureVector)
        ensures
            v.wf(),
            v.encodes(text@),
            count_sum(v@) == alpha_count(text@),
    {
        let mut counts: Vec<u64> = Vec::new();
        let mut k: usize = 0;
        while k < 26
            invariant
                k <= 26,
                counts@.len() == k as int,
                forall|j: int| 0 <= j < k as int ==> counts@[j] == 0,
                count_sum(counts@) == 0,
            decreases 26 - k,
        {
            proof {
                assert(counts@.push(0u64).drop_last() =~= counts@);
            }
            counts.push(0);
            k = k + 1;
        }
        let n_chars: usize = text.unicode_len();
        let mut i: usize = 0;
        proof {
            assert(text@.take(0) =~= Seq::<char>::empty());
        }
        while i < n_chars
            invariant
                i <= n_chars,
                n_chars as nat == text@.len(),
                counts@.len() == 26,
                forall|j: int| 0 <= j < 26 ==> #[trigger] counts@[j] as nat == letter_count(
                    text@.take(i as int),
                    j,
                ),
                count_sum(counts@) == alpha_count(text@.take(i as int)),
            decreases n_chars - i,
        {
            let c = text.get_char(i);
            let ghost prefix = text@.take(i as int);
            let ghost next = text@.take(i as int + 1);
            proof {
                assert(next.drop_last() =~= prefix);
                assert(next.last() == c);
            }
            let u = c as u32;
            if (97 <= u && u <= 122) || (65 <= u && u <= 90) {
                let idx: usize = if u >= 97 {
                    (u - 97) as usize
                } else {
                    (u - 65) as usize
                };
                assert(is_ascii_letter(c) && letter_index(c) == idx as int);
                proof {
                    lemma_letter_count_le_len(prefix, idx as int);
                    lemma_alpha_count_le_len(prefix);
                    lemma_count_sum_update(counts@, idx as int, (counts@[idx as int] + 1) as u64);
                }
                let cur = counts[idx];
                counts[idx] = cur + 1;
                assert forall|j: int| 0 <= j < 26 implies #[trigger] counts@[j] as nat
                    == letter_count(next, j) by {
                    if j == idx as int {
                        assert(letter_count(next, j) == letter_count(prefix, j) + 1);
                    } else {
                        assert(letter_count(next, j) == letter_count(prefix, j));
                    }
                }
            } else {
                assert(!is_ascii_letter(c));
                assert forall|j: int| 0 <= j < 26 implies #[trigger] counts@[j] as nat
                    == letter_count(next, j) by {
                    assert(letter_count(next, j) == letter_count(prefix, j));
                }
            }
            i = i + 1;
        }
        proof {
            assert(text@.take(n_chars as int) =~= text@);
        }
        FeatureVector { counts }
    }
}

/// Whether a text has at most `u32::MAX` ASCII letters, the most that
/// exact scoring accepts. Lets a caller establish that bound for a text
/// it knows nothing about.
pub fn within_limit(text: &str) -> (r: bool)
    ensures
        r == (alpha_count(text@) <= u32::MAX as nat),
{
    let v = FeatureVector::encode(text);
    let n_chars = text.unicode_len();
    proof {
        lemma_alpha_count_le_len(text@);
        crate::score::lemma_count_sum_nonneg(v@);
    }
    let mut total: u64 = 0;
    let mut i: usize = 0;
    proof {
        assert(v@.take(0) =~= Seq::<u64>::empty());
    }
    while i < 26
        invariant
            i <= 26,
            v@.len() == 26,
            total as int == count_sum(v@.take(i as int)),
            count_sum(v@) == alpha_count(text@),
            alpha_count(text@) <= n_chars as nat,
        decreases 26 - i,
    {
        proof {
            assert(v@.take(i as int + 1).drop_last() =~= v@.take(i as int));
            crate::score::lemma_count_sum_take_le(v@, i as int + 1);
        }
        total = total + v.counts[i];
        i = i + 1;
    }
    proof {
        assert(v@.take(26) =~= v@);
    }
    total <= 0xFFFF_FFFF
}

/// Characters that the encoder cannot tell apart: equal, or ASCII letters
/// that differ only in case.
pub open spec fn char_equiv(c: char, d: char) -> bool {
    c == d || (is_ascii_letter(c) && is_ascii_letter(d) && letter_index(c) == letter_index(d))
}

/// Texts of equal length whose characters differ at most in letter case.
pub open spec fn case_equiv(s: Seq<char>, t: Seq<char>) -> bool {
    &&& s.len() == t.len()
    &&& forall|i: int| 0 <= i < s.len() ==> char_equiv(s[i], t[i])
}

/// The encoding is case-insensitive: two texts that differ only in the case
/// of their letters have the same letter counts.
pub proof fn lemma_encode_case_insensitive(s: Seq<char>, t: Seq<char>)
    requires
        case_equiv(s, t),
    ensures
        forall|j: int| letter_count(s, j) == letter_count(t, j),
        alpha_count(s) == alpha_count(t),
    decreases s.len(),
{
    if s.len() > 0 {
        assert(char_equiv(s[s.len() - 1], t[t.len() - 1]));
        assert(case_equiv(s.drop_last(), t.drop_last()));
        lemma_encode_case_insensitive(s.drop_last(), t.drop_last());
        assert forall|j: int| letter_count(s, j) == letter_count(t, j) by {
            assert(letter_count(s.drop_last(), j) == letter_count(t.drop_last(), j));
            assert(char_equiv(s.last(), t.last()));
        }
    }
}

/// The encoding ignores non-letters: a text has the same letter counts as
/// the subsequence of its ASCII letters.
pub proof fn lemma_encode_ignores_nonletters(s: Seq<char>, j: int)
    ensures
        letter_count(s, j) == letter_count(s.filter(|c: char| is_ascii_letter(c)), j),
    decreases s.len(),
{
    reveal(Seq::filter);
    if s.len() > 0 {
        lemma_encode_ignores_nonletters(s.drop_last(), j);
        let f = s.filter(|c: char| is_ascii_letter(c));
        let rest = s.drop_last().filter(|c: char| is_ascii_letter(c));
        if is_ascii_letter(s.last()) {
            assert(f == rest.push(s.last()));
            assert(f.drop_last() =~= rest);
        } else {
            assert(f == rest);
        }
    }
}

} // verus!
