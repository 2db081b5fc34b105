use vector_store::encoding::FeatureVector;
use vector_store::score::score;
use vector_store::score::Score;

fn cosine(s: &Score) -> f64 {
    (s.num as f64 / s.den as f64).sqrt()
}

#[test]
fn self_similarity_of_nonzero_vector_is_one() {
    let v = FeatureVector::encode("I like apples");
    let s = score(&v, &v);
    // exactly one: numerator and denominator coincide
    assert_eq!(s.num, s.den);
    assert_eq!(cosine(&s), 1.0);
}

#[test]
fn similarity_is_symmetric() {
    let texts = ["I like apples", "I like pears", "dogs", "", "123"];
    for a in texts {
        for b in texts {
            let u = FeatureVector::encode(a);
            let v = FeatureVector::encode(b);
            assert_eq!(score(&u, &v), score(&v, &u));
        }
    }
}

#[test]
fn similarity_with_zero_vector_is_zero_by_convention() {
    let zero = FeatureVector::encode("123");
    let other = FeatureVector::encode("abc");
    let s = score(&zero, &other);
    assert_eq!(s, Score { num: 0, den: 1 });
    let s2 = score(&zero, &zero);
    assert_eq!(s2, Score { num: 0, den: 1 });
}

#[test]
fn similarity_exact_value() {
    // "fruit" -> f:1 r:1 u:1 i:1 t:1, norm^2 = 5
    // "I like pears" -> a:1 e:2 i:2 k:1 l:1 p:1 r:1 s:1, norm^2 = 14
    // dot = r:1 + i:2 = 3, so squared cosine = 9 / 70
    let q = FeatureVector::encode("fruit");
    let d = FeatureVector::encode("I like pears");
    let s = score(&q, &d);
    assert_eq!(s, Score { num: 9, den: 70 });
    let c = cosine(&s);
    assert!((c - (9.0f64 / 70.0).sqrt()).abs() < 1e-12);
}

#[test]
fn similarity_is_between_zero_and_one() {
    let texts = ["aa", "ab", "zzz", "The quick brown fox", "q"];
    for a in texts {
        for b in texts {
            let u = FeatureVector::encode(a);
            let v = FeatureVector::encode(b);
            let s = score(&u, &v);
            let c = cosine(&s);
            assert!((0.0..=1.0).contains(&c));
        }
    }
}
