use std::collections::HashSet;

use peters_bayes::classifier::{Fraction, NativeBayesClassifier, TokenEvidence};
use peters_bayes::message::Message;
use peters_bayes::tokenizer::tokenize;

fn combine(factors: &[TokenEvidence]) -> f64 {
    let mut log_spam = 0.0f64;
    let mut log_ham = 0.0f64;
    for f in factors {
        log_spam += (f.spam.num as f64 / f.spam.den as f64).ln();
        log_ham += (f.ham.num as f64 / f.ham.den as f64).ln();
    }
    let spam = log_spam.exp();
    let ham = log_ham.exp();
    spam / (spam + ham)
}

fn predict(model: &NativeBayesClassifier, text: &str) -> f64 {
    combine(&model.likelihood_factors(text))
}

fn set_of(v: Vec<String>) -> HashSet<String> {
    v.into_iter().collect()
}

fn corpus() -> [Message<'static>; 3] {
    [
        Message {
            text: "Free Bitcoin viagra XXX christmas deals 😻😻😻",
            is_spam: true,
        },
        Message::new("My dear Granddaughter, please explain Bitcoin over Christmas dinner"),
        Message {
            text: "Here in my garage...",
            is_spam: true,
        },
    ]
}

#[test]
fn naive_bayes() {
    let train_messages = corpus();

    let alpha: f64 = 1.;
    let num_spam_messages: f64 = 2.;
    let num_ham_messages: f64 = 1.;

    let mut model = NativeBayesClassifier::new(1, 1).unwrap();
    model.train(&train_messages);

    let mut expected_tokens: HashSet<String> = HashSet::new();
    for message in train_messages.iter() {
        for token in tokenize(&message.text.to_lowercase()) {
            expected_tokens.insert(token.to_string());
        }
    }
    assert_eq!(set_of(model.vocabulary()), expected_tokens);

    let input_text = "Bitcoin crypto academy Christmas deals";

    let probs_if_spam = [
        1. - (1. + alpha) / (num_spam_messages + 2. * alpha), // "Free"  (not present)
        (1. + alpha) / (num_spam_messages + 2. * alpha),      // "Bitcoin"  (present)
        1. - (1. + alpha) / (num_spam_messages + 2. * alpha), // "viagra"  (not present)
        1. - (1. + alpha) / (num_spam_messages + 2. * alpha), // "XXX"  (not present)
        (1. + alpha) / (num_spam_messages + 2. * alpha),      // "christmas"  (present)
        (1. + alpha) / (num_spam_messages + 2. * alpha),      // "deals"  (present)
        1. - (1. + alpha) / (num_spam_messages + 2. * alpha), // "my"  (not present)
        1. - (0. + alpha) / (num_spam_messages + 2. * alpha), // "dear"  (not present)
        1. - (0. + alpha) / (num_spam_messages + 2. * alpha), // "granddaughter"  (not present)
        1. - (0. + alpha) / (num_spam_messages + 2. * alpha), // "please"  (not present)
        1. - (0. + alpha) / (num_spam_messages + 2. * alpha), // "explain"  (not present)
        1. - (0. + alpha) / (num_spam_messages + 2. * alpha), // "over"  (not present)
        1. - (0. + alpha) / (num_spam_messages + 2. * alpha), // "dinner"  (not present)
        1. - (1. + alpha) / (num_spam_messages + 2. * alpha), // "here"  (not present)
        1. - (1. + alpha) / (num_spam_messages + 2. * alpha), // "in"  (not present)
        1. - (1. + alpha) / (num_spam_messages + 2. * alpha), // "garage"  (not present)
    ];

    let probs_if_ham = [
        1. - (0. + alpha) / (num_ham_messages + 2. * alpha), // "Free"  (not present)
        (1. + alpha) / (num_ham_messages + 2. * alpha),      // "Bitcoin"  (present)
        1. - (0. + alpha) / (num_ham_messages + 2. * alpha), // "viagra"  (not present)
        1. - (0. + alpha) / (num_ham_messages + 2. * alpha), // "XXX"  (not present)
        (1. + alpha) / (num_ham_messages + 2. * alpha),      // "christmas"  (present)
        (0. + alpha) / (num_ham_messages + 2. * alpha),      // "deals"  (present)
        1. - (1. + alpha) / (num_ham_messages + 2. * alpha), // "my"  (not present)
        1. - (1. + alpha) / (num_ham_messages + 2. * alpha), // "dear"  (not present)
        1. - (1. + alpha) / (num_ham_messages + 2. * alpha), // "granddaughter"  (not present)
        1. - (1. + alpha) / (num_ham_messages + 2. * alpha), // "please"  (not present)
        1. - (1. + alpha) / (num_ham_messages + 2. * alpha), // "explain"  (not present)
        1. - (1. + alpha) / (num_ham_messages + 2. * alpha), // "over"  (not present)
        1. - (1. + alpha) / (num_ham_messages + 2. * alpha), // "dinner"  (not present)
        1. - (0. + alpha) / (num_ham_messages + 2. * alpha), // "here"  (not present)
        1. - (0. + alpha) / (num_ham_messages + 2. * alpha), // "in"  (not present)
        1. - (0. + alpha) / (num_ham_messages + 2. * alpha), // "garage"  (not present)
    ];

    let p_if_spam_log: f64 = probs_if_spam.iter().map(|p| p.ln()).sum();
    let p_if_spam = p_if_spam_log.exp();

    let p_if_ham_log: f64 = probs_if_ham.iter().map(|p| p.ln()).sum();
    let p_if_ham = p_if_ham_log.exp();

    // P(message | spam) / (P(messge | spam) + P(message | ham)) rounds to 0.97
    assert!((predict(&model, input_text) - p_if_spam / (p_if_spam + p_if_ham)).abs() < 0.000001);
}

#[test]
fn canonical_scenario_counts_and_score() {
    let mut model = NativeBayesClassifier::new(1, 1).unwrap();
    model.train(&corpus());
    assert_eq!(model.vocabulary().len(), 16);
    assert_eq!(model.spam_messages_count(), 2);
    assert_eq!(model.ham_messages_count(), 1);
    assert_eq!(model.token_counts("bitcoin"), Some((1, 1)));
    assert_eq!(model.token_counts("my"), Some((1, 1)));
    assert_eq!(model.token_counts("deals"), Some((1, 0)));
    assert_eq!(model.token_counts("dear"), Some((0, 1)));
    assert_eq!(model.token_counts("crypto"), None);
    let p = predict(&model, "Bitcoin crypto academy Christmas deals");
    assert!((p - 0.97).abs() < 0.01);
}

#[test]
fn vocabulary_keeps_first_seen_order() {
    let mut model = NativeBayesClassifier::new(1, 1).unwrap();
    model.train(&corpus());
    let expected = [
        "free", "bitcoin", "viagra", "xxx", "christmas", "deals", "my", "dear", "granddaughter",
        "please", "explain", "over", "dinner", "here", "in", "garage",
    ];
    let got = model.vocabulary();
    assert_eq!(got.len(), expected.len());
    for (g, e) in got.iter().zip(expected.iter()) {
        assert_eq!(g, e);
    }
}

#[test]
fn factors_are_exact_fractions() {
    let mut model = NativeBayesClassifier::new(1, 1).unwrap();
    model.train(&corpus());
    let factors = model.likelihood_factors("Bitcoin crypto academy Christmas deals");
    assert_eq!(factors.len(), 16);
    // "free": spam count 1 of 2, ham count 0 of 1, absent.
    assert_eq!(factors[0].spam, Fraction { num: 2, den: 4 });
    assert_eq!(factors[0].ham, Fraction { num: 2, den: 3 });
    // "bitcoin": present in both classes once.
    assert_eq!(factors[1].spam, Fraction { num: 2, den: 4 });
    assert_eq!(factors[1].ham, Fraction { num: 2, den: 3 });
    // "deals": present, never in ham.
    assert_eq!(factors[5].spam, Fraction { num: 2, den: 4 });
    assert_eq!(factors[5].ham, Fraction { num: 1, den: 3 });
    // "dear": absent, never in spam.
    assert_eq!(factors[7].spam, Fraction { num: 3, den: 4 });
    assert_eq!(factors[7].ham, Fraction { num: 1, den: 3 });
}

#[test]
fn prob_of_tokens_gives_presence_probabilities() {
    let mut model = NativeBayesClassifier::new(1, 1).unwrap();
    model.train(&corpus());
    let (spam, ham) = model.prob_of_tokens(5); // "deals"
    assert_eq!(spam, Fraction { num: 2, den: 4 });
    assert_eq!(ham, Fraction { num: 1, den: 3 });
}

#[test]
fn prob_of_msg_takes_given_tokens() {
    let mut model = NativeBayesClassifier::new(1, 1).unwrap();
    model.train(&corpus());
    let factors = model.prob_of_msg(&vec!["dear".to_string()]);
    assert_eq!(factors[7].spam, Fraction { num: 1, den: 4 });
    assert_eq!(factors[7].ham, Fraction { num: 2, den: 3 });
    assert_eq!(factors[1].spam, Fraction { num: 2, den: 4 });
    assert_eq!(factors[1].ham, Fraction { num: 1, den: 3 });
}

#[test]
fn fractional_alpha_scales_both_terms() {
    let mut model = NativeBayesClassifier::new(1, 2).unwrap();
    model.train(&corpus());
    assert_eq!(model.alpha(), (1, 2));
    let (spam, ham) = model.prob_of_tokens(5); // "deals": (1 + 1/2) / (2 + 1), (0 + 1/2) / (1 + 1)
    assert_eq!(spam, Fraction { num: 3, den: 6 });
    assert_eq!(ham, Fraction { num: 1, den: 4 });
}

#[test]
fn zero_alpha_denominator_is_rejected() {
    assert!(NativeBayesClassifier::new(1, 0).is_none());
    assert!(NativeBayesClassifier::new(0, 1).is_some());
}

#[test]
fn untrained_predicts_one_half() {
    let model = NativeBayesClassifier::new(1, 1).unwrap();
    assert!(model.likelihood_factors("anything at all").is_empty());
    assert_eq!(predict(&model, "anything at all"), 0.5);
    assert_eq!(predict(&model, ""), 0.5);
}

#[test]
fn prediction_lies_in_unit_interval() {
    let mut model = NativeBayesClassifier::new(1, 1).unwrap();
    model.train(&corpus());
    for text in ["", "free viagra", "dear granddaughter", "zzz", "Here in my garage"] {
        let p = predict(&model, text);
        assert!((0.0..=1.0).contains(&p));
    }
}

#[test]
fn smoothed_probabilities_strictly_inside() {
    let mut model = NativeBayesClassifier::new(1, 1).unwrap();
    model.train(&corpus());
    for f in model.likelihood_factors("free dear bitcoin") {
        assert!(0 < f.spam.num && f.spam.num < f.spam.den);
        assert!(0 < f.ham.num && f.ham.num < f.ham.den);
    }
}

#[test]
fn unseen_in_class_with_unit_alpha() {
    let mut model = NativeBayesClassifier::new(1, 1).unwrap();
    model.train(&corpus());
    // "deals" never in ham (1 ham message): 1 / (1 + 2).
    let (_, ham) = model.prob_of_tokens(5);
    assert_eq!(ham, Fraction { num: 1, den: 3 });
    // "dear" never in spam (2 spam messages): 1 / (2 + 2).
    let (spam, _) = model.prob_of_tokens(7);
    assert_eq!(spam, Fraction { num: 1, den: 4 });
}

fn state_of(model: &NativeBayesClassifier) -> (u64, u64, Vec<(String, Option<(u64, u64)>)>) {
    let mut tokens = model.vocabulary();
    tokens.sort();
    let counts = tokens.into_iter().map(|t| {
        let c = model.token_counts(&t);
        (t, c)
    });
    (model.spam_messages_count(), model.ham_messages_count(), counts.collect())
}

#[test]
fn training_is_count_additive() {
    let all = corpus();
    let mut once = NativeBayesClassifier::new(1, 1).unwrap();
    once.train(&all);
    let mut twice = NativeBayesClassifier::new(1, 1).unwrap();
    twice.train(&all[..1]);
    twice.train(&all[1..]);
    assert_eq!(state_of(&once), state_of(&twice));
    let mut reversed = NativeBayesClassifier::new(1, 1).unwrap();
    reversed.train(&all[1..]);
    reversed.train(&all[..1]);
    assert_eq!(state_of(&once), state_of(&reversed));
}

#[test]
fn retraining_doubles_counts() {
    let mut model = NativeBayesClassifier::new(1, 1).unwrap();
    model.train(&corpus());
    model.train(&corpus());
    assert_eq!(model.spam_messages_count(), 4);
    assert_eq!(model.ham_messages_count(), 2);
    assert_eq!(model.token_counts("bitcoin"), Some((2, 2)));
    assert_eq!(model.vocabulary().len(), 16);
}

#[test]
fn repeated_token_counts_once_per_message() {
    let mut model = NativeBayesClassifier::new(1, 1).unwrap();
    model.train(&[Message { text: "spam spam SPAM", is_spam: true }]);
    assert_eq!(model.token_counts("spam"), Some((1, 0)));
    assert_eq!(model.vocabulary(), vec!["spam".to_string()]);
}

#[test]
fn training_lowercases_text() {
    let mut model = NativeBayesClassifier::new(1, 1).unwrap();
    model.train(&[Message::new("HELLO World")]);
    assert_eq!(model.token_counts("hello"), Some((0, 1)));
    assert_eq!(model.token_counts("HELLO"), None);
}

#[test]
fn message_constructor_is_ham() {
    let m = Message::new("hi");
    assert!(!m.is_spam());
    assert_eq!(m.text, "hi");
    let s = Message { text: "x", is_spam: true };
    assert!(s.is_spam());
}
