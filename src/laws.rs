use vstd::prelude::*;

use crate::classifier::{
    add_message, add_tokens, bump, count_or_zero, factor, fraction_is, message_tokens, trained,
    ClassifierModel, CorpusStats, TokenEvidence,
};

verus! {

/// Training on one message.
pub open spec fn step(s: CorpusStats, m: (Seq<char>, bool)) -> CorpusStats {
    add_message(s, message_tokens(m.0), m.1)
}

proof fn lemma_step_commutes(s: CorpusStats, m1: (Seq<char>, bool), m2: (Seq<char>, bool))
    ensures
        step(step(s, m1), m2) == step(step(s, m2), m1),
{
    let (t1, b1) = (message_tokens(m1.0), m1.1);
    let (t2, b2) = (message_tokens(m2.0), m2.1);
    let l = add_tokens(add_tokens(s.counts, t1, b1), t2, b2);
    let r = add_tokens(add_tokens(s.counts, t2, b2), t1, b1);
    assert forall|t: Seq<char>| #[trigger] l.contains_key(t) implies r.contains_key(t) && l[t]
        == r[t] by {
        assert(count_or_zero(add_tokens(s.counts, t1, b1), t) == if t1.contains(t) {
            bump(count_or_zero(s.counts, t), b1)
        } else {
            count_or_zero(s.counts, t)
        });
        assert(count_or_zero(add_tokens(s.counts, t2, b2), t) == if t2.contains(t) {
            bump(count_or_zero(s.counts, t), b2)
        } else {
            count_or_zero(s.counts, t)
        });
    }
    assert(l =~= r);
}

/// Training on `msgs` and then on one more message is the same as training on that message
/// first and then on `msgs`.
proof fn lemma_step_through(s: CorpusStats, m: (Seq<char>, bool), msgs: Seq<(Seq<char>, bool)>)
    ensures
        trained(step(s, m), msgs) == step(trained(s, msgs), m),
    decreases msgs.len(),
{
    if msgs.len() > 0 {
        lemma_step_through(s, m, msgs.drop_last());
        lemma_step_commutes(trained(s, msgs.drop_last()), m, msgs.last());
    }
}

/// Training on corpus `a` and then on corpus `b` leaves the same statistics as training once
/// on `a` followed by `b`.
pub proof fn lemma_train_concat(
    s: CorpusStats,
    a: Seq<(Seq<char>, bool)>,
    b: Seq<(Seq<char>, bool)>,
)
    ensures
        trained(trained(s, a), b) == trained(s, a + b),
    decreases b.len(),
{
    if b.len() == 0 {
        assert(a + b =~= a);
    } else {
        lemma_train_concat(s, a, b.drop_last());
        assert((a + b).drop_last() =~= a + b.drop_last());
        assert((a + b).last() == b.last());
    }
}

proof fn lemma_train_cons(s: CorpusStats, m: (Seq<char>, bool), msgs: Seq<(Seq<char>, bool)>)
    ensures
        trained(s, seq![m] + msgs) == trained(step(s, m), msgs),
{
    lemma_train_concat(s, seq![m], msgs);
    let one = seq![m];
    assert(one.drop_last() =~= Seq::<(Seq<char>, bool)>::empty());
    assert(trained(s, one.drop_last()) == s);
    assert(one.last() == m);
    assert(trained(s, one) == step(s, m));
}

/// The order of the corpora does not matter: training on `a` followed by `b` leaves the same
/// statistics as training on `b` followed by `a`.
pub proof fn lemma_train_order_independent(
    s: CorpusStats,
    a: Seq<(Seq<char>, bool)>,
    b: Seq<(Seq<char>, bool)>,
)
    ensures
        trained(s, a + b) == trained(s, b + a),
    decreases a.len(),
{
    if a.len() == 0 {
        assert(a + b =~= b);
        assert(b + a =~= b);
    } else {
        let m = a[0];
        let rest = a.drop_first();
        assert(a =~= seq![m] + rest);
        assert(a + b =~= seq![m] + (rest + b));
        lemma_train_cons(s, m, rest + b);
        lemma_train_order_independent(step(s, m), rest, b);
        lemma_train_concat(step(s, m), b, rest);
        lemma_step_through(s, m, b);
        lemma_train_cons(trained(s, b), m, rest);
        lemma_train_concat(s, b, seq![m] + rest);
    }
}

proof fn lemma_smoothed_le(m: ClassifierModel, c: nat, n: nat)
    requires
        c <= n,
    ensures
        m.smoothed(c, n).0 <= m.smoothed(c, n).1,
        m.alpha_num > 0 ==> 0 < m.smoothed(c, n).0 < m.smoothed(c, n).1,
{
    let d = m.alpha_den;
    assert(c * d <= n * d) by (nonlinear_arith)
        requires
            c <= n,
    ;
}

proof fn lemma_counts_within(m: ClassifierModel, t: Seq<char>)
    requires
        m.valid(),
    ensures
        count_or_zero(m.stats.counts, t).0 <= m.stats.spam_messages,
        count_or_zero(m.stats.counts, t).1 <= m.stats.ham_messages,
{
    if m.stats.counts.contains_key(t) {
        assert(m.stats.counts[t].0 <= m.stats.spam_messages);
    }
}

/// With a positive smoothing strength, the smoothed probability of every token, known or not,
/// lies strictly between zero and one under both classes.
pub proof fn lemma_smoothed_strictly_between(m: ClassifierModel, t: Seq<char>)
    requires
        m.valid(),
        m.alpha_num > 0,
    ensures
        0 < m.p_spam(t).0 < m.p_spam(t).1,
        0 < m.p_ham(t).0 < m.p_ham(t).1,
{
    lemma_counts_within(m, t);
    lemma_smoothed_le(m, count_or_zero(m.stats.counts, t).0, m.stats.spam_messages);
    lemma_smoothed_le(m, count_or_zero(m.stats.counts, t).1, m.stats.ham_messages);
}

/// Every factor that a text gets is a fraction between zero and one, and with a positive
/// smoothing strength strictly above zero with a positive denominator; so each class's
/// likelihood, their product, lies between zero and one.
pub proof fn lemma_factors_are_probabilities(
    m: ClassifierModel,
    r: Seq<TokenEvidence>,
    q: Set<Seq<char>>,
)
    requires
        m.valid(),
        m.evidence_for(r, q),
    ensures
        forall|i: int|
            0 <= i < r.len() ==> {
                &&& (#[trigger] r[i]).spam.num <= r[i].spam.den
                &&& r[i].ham.num <= r[i].ham.den
                &&& m.alpha_num > 0 ==> 0 < r[i].spam.num && 0 < r[i].ham.num
            },
{
    assert forall|i: int| 0 <= i < r.len() implies {
        &&& (#[trigger] r[i]).spam.num <= r[i].spam.den
        &&& r[i].ham.num <= r[i].ham.den
        &&& m.alpha_num > 0 ==> 0 < r[i].spam.num && 0 < r[i].ham.num
    } by {
        let t = m.vocabulary[i];
        assert(fraction_is(r[i].spam, factor(m.p_spam(t), q.contains(t))));
        lemma_counts_within(m, t);
        lemma_smoothed_le(m, count_or_zero(m.stats.counts, t).0, m.stats.spam_messages);
        lemma_smoothed_le(m, count_or_zero(m.stats.counts, t).1, m.stats.ham_messages);
    }
}

/// A classifier that has seen no message knows no token, so no text gets any factor: both
/// likelihoods are empty products.
pub proof fn lemma_untrained_no_factors(m: ClassifierModel, r: Seq<TokenEvidence>, q: Set<Seq<char>>)
    requires
        m.valid(),
        m.stats == CorpusStats::empty(),
        m.evidence_for(r, q),
    ensures
        m.vocabulary.len() == 0,
        r.len() == 0,
{
    if m.vocabulary.len() > 0 {
        assert(m.vocabulary.to_set().contains(m.vocabulary[0]));
        assert(m.stats.counts.dom().contains(m.vocabulary[0]));
    }
}

/// With smoothing strength one, a token that no message of a class contained gets, under that
/// class, exactly the probability `1 / (n + 2)`, `n` being the number of messages of the class.
pub proof fn lemma_unseen_in_class_with_unit_alpha(m: ClassifierModel, t: Seq<char>)
    requires
        m.valid(),
        m.alpha_num == m.alpha_den,
    ensures
        count_or_zero(m.stats.counts, t).0 == 0 ==> m.p_spam(t).0 > 0 && m.p_spam(t).0 * (
        m.stats.spam_messages + 2) == m.p_spam(t).1,
        count_or_zero(m.stats.counts, t).1 == 0 ==> m.p_ham(t).0 > 0 && m.p_ham(t).0 * (
        m.stats.ham_messages + 2) == m.p_ham(t).1,
{
    let d = m.alpha_den;
    let ns = m.stats.spam_messages;
    let nh = m.stats.ham_messages;
    assert(0 * d + d == d && d * (ns + 2) == ns * d + 2 * d) by (nonlinear_arith);
    assert(d * (nh + 2) == nh * d + 2 * d) by (nonlinear_arith);
}

} // verus!
