use vstd::prelude::*;

use crate::message::{message_view, Message};
use crate::tokenizer::{contains_token, lower_of, lowercase, string_views, token_set, tokenize};

verus! {

/// What training has gathered: message counts per class, and for each known token how many
/// spam and how many ham messages contained it.
pub struct CorpusStats {
    pub spam_messages: nat,
    pub ham_messages: nat,
    pub counts: Map<Seq<char>, (nat, nat)>,
}

/// The abstract state of a classifier. The smoothing strength is `alpha_num / alpha_den`;
/// `vocabulary` lists the known tokens in the order they were first seen.
pub struct ClassifierModel {
    pub alpha_num: nat,
    pub alpha_den: nat,
    pub vocabulary: Seq<Seq<char>>,
    pub stats: CorpusStats,
}

/// The tokens that training and prediction read from a text: those of its lowercase form.
pub open spec fn message_tokens(text: Seq<char>) -> Set<Seq<char>> {
    token_set(lower_of(text))
}

/// The (spam, ham) counts of `t`, zero for a token never seen.
pub open spec fn count_or_zero(counts: Map<Seq<char>, (nat, nat)>, t: Seq<char>) -> (nat, nat) {
    if counts.contains_key(t) {
        counts[t]
    } else {
        (0, 0)
    }
}

/// One more message of the given class.
pub open spec fn bump(c: (nat, nat), is_spam: bool) -> (nat, nat) {
    if is_spam {
        (c.0 + 1, c.1)
    } else {
        (c.0, c.1 + 1)
    }
}

/// The counts after one message of the given class with the given tokens.
pub open spec fn add_tokens(
    counts: Map<Seq<char>, (nat, nat)>,
    tokens: Set<Seq<char>>,
    is_spam: bool,
) -> Map<Seq<char>, (nat, nat)> {
    Map::new(
        |t: Seq<char>| counts.contains_key(t) || tokens.contains(t),
        |t: Seq<char>|
            if tokens.contains(t) {
                bump(count_or_zero(counts, t), is_spam)
            } else {
                counts[t]
            },
    )
}

/// The statistics after training on one message of the given class with the given tokens.
pub open spec fn add_message(s: CorpusStats, tokens: Set<Seq<char>>, is_spam: bool) -> CorpusStats {
    CorpusStats {
        spam_messages: if is_spam {
            s.spam_messages + 1
        } else {
            s.spam_messages
        },
        ham_messages: if is_spam {
            s.ham_messages
        } else {
            s.ham_messages + 1
        },
        counts: add_tokens(s.counts, tokens, is_spam),
    }
}

/// The statistics after training on `msgs` (text and label), in order.
pub open spec fn trained(s: CorpusStats, msgs: Seq<(Seq<char>, bool)>) -> CorpusStats
    decreases msgs.len(),
{
    if msgs.len() == 0 {
        s
    } else {
        add_message(trained(s, msgs.drop_last()), message_tokens(msgs.last().0), msgs.last().1)
    }
}

/// Each message counts towards exactly one class.
pub proof fn lemma_trained_total(s: CorpusStats, msgs: Seq<(Seq<char>, bool)>)
    ensures
        trained(s, msgs).spam_messages + trained(s, msgs).ham_messages == s.spam_messages
            + s.ham_messages + msgs.len(),
    decreases msgs.len(),
{
    if msgs.len() > 0 {
        lemma_trained_total(s, msgs.drop_last());
    }
}

/// The text and label of each message.
pub open spec fn messages_view(msgs: Seq<Message<'_>>) -> Seq<(Seq<char>, bool)> {
    msgs.map_values(|m: Message<'_>| message_view(m))
}

impl CorpusStats {
    /// Nothing trained yet.
    pub open spec fn empty() -> CorpusStats {
        CorpusStats { spam_messages: 0, ham_messages: 0, counts: Map::empty() }
    }

    /// No token was counted in more messages of a class than that class has.
    pub open spec fn bounded(self) -> bool {
        forall|t: Seq<char>|
            #[trigger] self.counts.contains_key(t) ==> self.counts[t].0 <= self.spam_messages
                && self.counts[t].1 <= self.ham_messages
    }
}

impl ClassifierModel {
    /// A positive `alpha_den`; each known token listed once; counts kept for exactly the
    /// listed tokens, none above its class's message count.
    pub open spec fn valid(self) -> bool {
        &&& self.alpha_den > 0
        &&& self.vocabulary.no_duplicates()
        &&& self.stats.counts.dom() == self.vocabulary.to_set()
        &&& self.stats.bounded()
    }
}

/// A fraction `num / den`.
#[derive(Debug, Clone, Copy, PartialEq, Eq)]
pub struct Fraction {
    pub num: u128,
    pub den: u128,
}

/// What one vocabulary token contributes to the likelihood of a text under each class.
#[derive(Debug, Clone, Copy, PartialEq, Eq)]
pub struct TokenEvidence {
    pub spam: Fraction,
    pub ham: Fraction,
}

/// `p` for a token the text contains, `1 - p` for one it lacks, as (numerator, denominator).
pub open spec fn factor(p: (nat, nat), present: bool) -> (int, int) {
    if present {
        (p.0 as int, p.1 as int)
    } else {
        (p.1 - p.0, p.1 as int)
    }
}

/// `f` is the (numerator, denominator) pair `v`.
pub open spec fn fraction_is(f: Fraction, v: (int, int)) -> bool {
    f.num == v.0 && f.den == v.1
}

impl ClassifierModel {
    /// The smoothed estimate `(count + alpha) / (total + 2 alpha)`, numerator and denominator
    /// both multiplied by `alpha_den`.
    pub open spec fn smoothed(self, count: nat, total: nat) -> (nat, nat) {
        (count * self.alpha_den + self.alpha_num, total * self.alpha_den + 2 * self.alpha_num)
    }

    /// The smoothed probability that a spam message contains `t`.
    pub open spec fn p_spam(self, t: Seq<char>) -> (nat, nat) {
        self.smoothed(count_or_zero(self.stats.counts, t).0, self.stats.spam_messages)
    }

    /// The smoothed probability that a ham message contains `t`.
    pub open spec fn p_ham(self, t: Seq<char>) -> (nat, nat) {
        self.smoothed(count_or_zero(self.stats.counts, t).1, self.stats.ham_messages)
    }

    /// `r` holds, for each vocabulary token in order, its factor under each class for a text
    /// whose tokens are `q`.
    pub open spec fn evidence_for(self, r: Seq<TokenEvidence>, q: Set<Seq<char>>) -> bool {
        &&& r.len() == self.vocabulary.len()
        &&& forall|i: int|
            0 <= i < r.len() ==> {
                let t = self.vocabulary[i];
                &&& fraction_is(#[trigger] r[i].spam, factor(self.p_spam(t), q.contains(t)))
                &&& fraction_is(r[i].ham, factor(self.p_ham(t), q.contains(t)))
            }
    }
}

/// A known token with the number of spam and ham messages that contained it.
#[derive(Debug, Clone)]
struct TokenCounts {
    token: String,
    spam: u64,
    ham: u64,
}

spec fn entry_tokens(e: Seq<TokenCounts>) -> Seq<Seq<char>> {
    e.map_values(|c: TokenCounts| c.token@)
}

spec fn counts_of(e: Seq<TokenCounts>) -> Map<Seq<char>, (nat, nat)>
    decreases e.len(),
{
    if e.len() == 0 {
        Map::empty()
    } else {
        counts_of(e.drop_last()).insert(e.last().token@, (e.last().spam as nat, e.last().ham as nat))
    }
}

proof fn lemma_counts_of_dom(e: Seq<TokenCounts>)
    ensures
        counts_of(e).dom() == entry_tokens(e).to_set(),
    decreases e.len(),
{
    if e.len() > 0 {
        lemma_counts_of_dom(e.drop_last());
        assert(entry_tokens(e) =~= entry_tokens(e.drop_last()).push(e.last().token@));
        entry_tokens(e.drop_last()).lemma_push_to_set_commute(e.last().token@);
    } else {
        assert(counts_of(e).dom() =~= entry_tokens(e).to_set());
    }
}

proof fn lemma_counts_of_get(e: Seq<TokenCounts>, i: int)
    requires
        entry_tokens(e).no_duplicates(),
        0 <= i < e.len(),
    ensures
        counts_of(e).contains_key(e[i].token@),
        counts_of(e)[e[i].token@] == (e[i].spam as nat, e[i].ham as nat),
    decreases e.len(),
{
    if i < e.len() - 1 {
        assert(entry_tokens(e.drop_last()) =~= entry_tokens(e).drop_last());
        assert(entry_tokens(e)[i] != entry_tokens(e)[e.len() - 1]);
        lemma_counts_of_get(e.drop_last(), i);
    }
}

proof fn lemma_counts_of_update(e: Seq<TokenCounts>, i: int, x: TokenCounts)
    requires
        entry_tokens(e).no_duplicates(),
        0 <= i < e.len(),
        x.token@ == e[i].token@,
    ensures
        counts_of(e.update(i, x)) == counts_of(e).insert(x.token@, (x.spam as nat, x.ham as nat)),
    decreases e.len(),
{
    let u = e.update(i, x);
    if i == e.len() - 1 {
        assert(u.drop_last() =~= e.drop_last());
        assert(counts_of(u) =~= counts_of(e).insert(x.token@, (x.spam as nat, x.ham as nat)));
    } else {
        assert(u.drop_last() =~= e.drop_last().update(i, x));
        assert(entry_tokens(e.drop_last()) =~= entry_tokens(e).drop_last());
        assert(entry_tokens(e)[i] != entry_tokens(e)[e.len() - 1]);
        lemma_counts_of_update(e.drop_last(), i, x);
        assert(counts_of(u) =~= counts_of(e).insert(x.token@, (x.spam as nat, x.ham as nat)));
    }
}

proof fn lemma_add_tokens_step(
    c: Map<Seq<char>, (nat, nat)>,
    x: Set<Seq<char>>,
    t: Seq<char>,
    is_spam: bool,
)
    requires
        !x.contains(t),
    ensures
        add_tokens(c, x.insert(t), is_spam) == add_tokens(c, x, is_spam).insert(
            t,
            bump(count_or_zero(c, t), is_spam),
        ),
        count_or_zero(add_tokens(c, x, is_spam), t) == count_or_zero(c, t),
{
    assert(add_tokens(c, x.insert(t), is_spam) =~= add_tokens(c, x, is_spam).insert(
        t,
        bump(count_or_zero(c, t), is_spam),
    ));
}

proof fn lemma_scaled_bounds(c: nat, n: nat, d: nat)
    requires
        c <= n,
        n <= u64::MAX,
        d <= u32::MAX,
    ensures
        c * d <= n * d,
        n * d <= 0xffff_ffff_ffff_ffffu128 * 0xffff_ffffu128,
{
    assert(c * d <= n * d) by (nonlinear_arith)
        requires
            c <= n,
    ;
    assert(n * d <= 0xffff_ffff_ffff_ffffu128 * 0xffff_ffffu128) by (nonlinear_arith)
        requires
            n <= u64::MAX,
            d <= u32::MAX,
    ;
}

/// A Naive Bayes spam classifier with additive smoothing.
#[derive(Debug, Clone)]
pub struct NativeBayesClassifier {
    alpha_num: u32,
    alpha_den: u32,
    entries: Vec<TokenCounts>,
    spam_messages_count: u64,
    ham_messages_count: u64,
}

impl View for NativeBayesClassifier {
    type V = ClassifierModel;

    closed spec fn view(&self) -> ClassifierModel {
        ClassifierModel {
            alpha_num: self.alpha_num as nat,
            alpha_den: self.alpha_den as nat,
            vocabulary: entry_tokens(self.entries@),
            stats: CorpusStats {
                spam_messages: self.spam_messages_count as nat,
                ham_messages: self.ham_messages_count as nat,
                counts: counts_of(self.entries@),
            },
        }
    }
}

impl NativeBayesClassifier {
    pub open spec fn wf(&self) -> bool {
        self@.valid()
    }

    /// An untrained classifier with smoothing strength `alpha_num / alpha_den`;
    /// `None` when `alpha_den` is zero.
    pub fn new(alpha_num: u32, alpha_den: u32) -> (r: Option<NativeBayesClassifier>)
        ensures
            r is None <==> alpha_den == 0,
            r matches Some(c) ==> {
                &&& c.wf()
                &&& c@.alpha_num == alpha_num
                &&& c@.alpha_den == alpha_den
                &&& c@.vocabulary.len() == 0
                &&& c@.stats == CorpusStats::empty()
            },
    {
        if alpha_den == 0 {
            return None;
        }
        let c = NativeBayesClassifier {
            alpha_num,
            alpha_den,
            entries: Vec::new(),
            spam_messages_count: 0,
            ham_messages_count: 0,
        };
        assert(c@.stats.counts =~= Map::empty());
        assert(c@.vocabulary =~= Seq::empty());
        assert(c@.vocabulary.to_set() =~= Set::empty());
        Some(c)
    }

    /// Counts one more message of the message's class.
    fn incre_msg_cl_count(&mut self, msg: &Message)
        requires
            old(self).wf(),
            old(self)@.stats.spam_messages + old(self)@.stats.ham_messages < u64::MAX,
        ensures
            final(self).wf(),
            final(self)@ == (ClassifierModel {
                stats: CorpusStats {
                    spam_messages: if msg.is_spam {
                        old(self)@.stats.spam_messages + 1
                    } else {
                        old(self)@.stats.spam_messages
                    },
                    ham_messages: if msg.is_spam {
                        old(self)@.stats.ham_messages
                    } else {
                        old(self)@.stats.ham_messages + 1
                    },
                    ..old(self)@.stats
                },
                ..old(self)@
            }),
    {
        if msg.is_spam() {
            self.spam_messages_count = self.spam_messages_count + 1;
        } else {
            self.ham_messages_count = self.ham_messages_count + 1;
        }
    }

    /// The position of `token` in the vocabulary, if it is known.
    fn find_token(&self, token: &String) -> (r: Option<usize>)
        requires
            self.wf(),
        ensures
            r is None <==> !self@.vocabulary.contains(token@),
            r matches Some(i) ==> i < self@.vocabulary.len() && self@.vocabulary[i as int]
                == token@,
    {
        let mut i: usize = 0;
        while i < self.entries.len()
            invariant
                0 <= i <= self.entries.len(),
                forall|k: int| 0 <= k < i ==> self.entries@[k].token@ != token@,
            decreases self.entries.len() - i,
        {
            if self.entries[i].token == *token {
                assert(self@.vocabulary[i as int] == token@);
                return Some(i);
            }
            i += 1;
        }
        assert(!self@.vocabulary.contains(token@)) by {
            if self@.vocabulary.contains(token@) {
                let k = choose|k: int|
                    0 <= k < self@.vocabulary.len() && self@.vocabulary[k] == token@;
                assert(self.entries@[k].token@ == token@);
            }
        }
        None
    }

    /// Counts `token` in one more message of the given class, adding it to the vocabulary
    /// on first sight.
    fn incre_token_count(&mut self, token: &String, is_spam: bool)
        requires
            old(self).wf(),
            is_spam ==> count_or_zero(old(self)@.stats.counts, token@).0
                < old(self)@.stats.spam_messages,
            !is_spam ==> count_or_zero(old(self)@.stats.counts, token@).1
                < old(self)@.stats.ham_messages,
        ensures
            final(self).wf(),
            final(self)@.alpha_num == old(self)@.alpha_num,
            final(self)@.alpha_den == old(self)@.alpha_den,
            final(self)@.stats.spam_messages == old(self)@.stats.spam_messages,
            final(self)@.stats.ham_messages == old(self)@.stats.ham_messages,
            final(self)@.stats.counts == old(self)@.stats.counts.insert(
                token@,
                bump(count_or_zero(old(self)@.stats.counts, token@), is_spam),
            ),
            old(self)@.vocabulary.is_prefix_of(final(self)@.vocabulary),
    {
        let ghost e0 = self.entries@;
        proof {
            lemma_counts_of_dom(e0);
        }
        match self.find_token(token) {
            Some(i) => {
                proof {
                    lemma_counts_of_get(e0, i as int);
                }
                let spam = self.entries[i].spam;
                let ham = self.entries[i].ham;
                let x = if is_spam {
                    TokenCounts { token: self.entries[i].token.clone(), spam: spam + 1, ham }
                } else {
                    TokenCounts { token: self.entries[i].token.clone(), spam, ham: ham + 1 }
                };
                self.entries.set(i, x);
                proof {
                    lemma_counts_of_update(e0, i as int, x);
                    assert(entry_tokens(self.entries@) =~= entry_tokens(e0));
                    assert(entry_tokens(e0).is_prefix_of(self@.vocabulary));
                    lemma_counts_of_dom(self.entries@);
                }
            },
            None => {
                let x = if is_spam {
                    TokenCounts { token: token.clone(), spam: 1, ham: 0 }
                } else {
                    TokenCounts { token: token.clone(), spam: 0, ham: 1 }
                };
                self.entries.push(x);
                proof {
                    assert(self.entries@.drop_last() =~= e0);
                    assert(entry_tokens(self.entries@) =~= entry_tokens(e0).push(token@));
                    lemma_counts_of_dom(self.entries@);
                    assert(self@.vocabulary.no_duplicates());
                    assert(entry_tokens(e0).is_prefix_of(self@.vocabulary));
                }
            },
        }
        assert(self@.stats.bounded()) by {
            assert forall|t: Seq<char>| #[trigger] self@.stats.counts.contains_key(t) implies
                self@.stats.counts[t].0 <= self@.stats.spam_messages
                && self@.stats.counts[t].1 <= self@.stats.ham_messages by {
                if t != token@ {
                    assert(old(self)@.stats.counts.contains_key(t));
                }
            }
        }
    }

    /// Folds the messages, in order, into the statistics: each counts towards its class, and
    /// each distinct token of its lowercase text counts once towards that class.
    pub fn train(&mut self, messages: &[Message])
        requires
            old(self).wf(),
            old(self)@.stats.spam_messages + old(self)@.stats.ham_messages + messages@.len()
                <= u64::MAX,
        ensures
            final(self).wf(),
            final(self)@.alpha_num == old(self)@.alpha_num,
            final(self)@.alpha_den == old(self)@.alpha_den,
            final(self)@.stats == trained(old(self)@.stats, messages_view(messages@)),
            final(self)@.stats.spam_messages + final(self)@.stats.ham_messages
                == old(self)@.stats.spam_messages + old(self)@.stats.ham_messages
                + messages@.len(),
            old(self)@.vocabulary.is_prefix_of(final(self)@.vocabulary),
    {
        let ghost start = self@.stats;
        let mut i: usize = 0;
        while i < messages.len()
            invariant
                0 <= i <= messages.len(),
                self.wf(),
                self@.alpha_num == old(self)@.alpha_num,
                self@.alpha_den == old(self)@.alpha_den,
                start == old(self)@.stats,
                old(self)@.vocabulary.is_prefix_of(self@.vocabulary),
                self@.stats == trained(start, messages_view(messages@).take(i as int)),
                self@.stats.spam_messages + self@.stats.ham_messages + (messages@.len() - i)
                    <= u64::MAX,
            decreases messages.len() - i,
        {
            let msg = &messages[i];
            let ghost prev = self@.stats;
            self.incre_msg_cl_count(msg);
            let lowered = lowercase(msg.text);
            let tokens = tokenize(lowered.as_str());
            let mut j: usize = 0;
            while j < tokens.len()
                invariant
                    0 <= j <= tokens.len(),
                    self.wf(),
                    self@.alpha_num == old(self)@.alpha_num,
                    self@.alpha_den == old(self)@.alpha_den,
                    string_views(tokens@).no_duplicates(),
                    old(self)@.vocabulary.is_prefix_of(self@.vocabulary),
                    prev.bounded(),
                    self@.stats.spam_messages == add_message(prev, Set::empty(), msg.is_spam).spam_messages,
                    self@.stats.ham_messages == add_message(prev, Set::empty(), msg.is_spam).ham_messages,
                    self@.stats.counts == add_tokens(
                        prev.counts,
                        string_views(tokens@).take(j as int).to_set(),
                        msg.is_spam,
                    ),
                decreases tokens.len() - j,
            {
                proof {
                    let views = string_views(tokens@);
                    let x = views.take(j as int).to_set();
                    let t = views[j as int];
                    assert(!x.contains(t)) by {
                        if x.contains(t) {
                            let k = choose|k: int| 0 <= k < j && views.take(j as int)[k] == t;
                            assert(views[k] == views[j as int]);
                        }
                    }
                    lemma_add_tokens_step(prev.counts, x, t, msg.is_spam);
                    assert(views.take(j + 1) =~= views.take(j as int).push(t));
                    views.take(j as int).lemma_push_to_set_commute(t);
                    if prev.counts.contains_key(t) {
                        assert(prev.counts[t].0 <= prev.spam_messages);
                    }
                }
                let ghost before = self@.vocabulary;
                self.incre_token_count(&tokens[j], msg.is_spam);
                assert(old(self)@.vocabulary =~= self@.vocabulary.take(old(self)@.vocabulary.len() as int))
                    by {
                    assert(before.take(old(self)@.vocabulary.len() as int)
                        =~= self@.vocabulary.take(old(self)@.vocabulary.len() as int));
                }
                j += 1;
            }
            proof {
                let mv = messages_view(messages@);
                assert(string_views(tokens@).take(tokens.len() as int) =~= string_views(tokens@));
                assert(mv.take(i + 1).drop_last() =~= mv.take(i as int));
                assert(mv.take(i + 1).last() == (msg.text@, msg.is_spam));
                assert(add_tokens(prev.counts, Set::empty(), msg.is_spam) =~= prev.counts);
            }
            i += 1;
        }
        assert(messages_view(messages@).take(messages.len() as int) =~= messages_view(messages@));
        proof {
            lemma_trained_total(old(self)@.stats, messages_view(messages@));
        }
    }

    /// The smoothed estimate `(count + alpha) / (total + 2 alpha)` when `present`, else one
    /// minus it.
    fn smoothed_factor(&self, count: u64, total: u64, present: bool) -> (r: Fraction)
        requires
            self.wf(),
            count <= total,
        ensures
            fraction_is(r, factor(self@.smoothed(count as nat, total as nat), present)),
    {
        proof {
            lemma_scaled_bounds(count as nat, total as nat, self.alpha_den as nat);
        }
        let d = self.alpha_den as u128;
        let a = self.alpha_num as u128;
        let num = count as u128 * d + a;
        let den = total as u128 * d + 2 * a;
        if present {
            Fraction { num, den }
        } else {
            Fraction { num: den - num, den }
        }
    }

    /// The smoothed probabilities that a spam and a ham message contain the vocabulary token
    /// at `index`.
    pub fn prob_of_tokens(&self, index: usize) -> (r: (Fraction, Fraction))
        requires
            self.wf(),
            index < self@.vocabulary.len(),
        ensures
            fraction_is(r.0, factor(self@.p_spam(self@.vocabulary[index as int]), true)),
            fraction_is(r.1, factor(self@.p_ham(self@.vocabulary[index as int]), true)),
    {
        self.token_factors(index, true)
    }

    fn token_factors(&self, index: usize, present: bool) -> (r: (Fraction, Fraction))
        requires
            self.wf(),
            index < self@.vocabulary.len(),
        ensures
            fraction_is(r.0, factor(self@.p_spam(self@.vocabulary[index as int]), present)),
            fraction_is(r.1, factor(self@.p_ham(self@.vocabulary[index as int]), present)),
    {
        proof {
            lemma_counts_of_get(self.entries@, index as int);
        }
        let e = &self.entries[index];
        let spam = self.smoothed_factor(e.spam, self.spam_messages_count, present);
        let ham = self.smoothed_factor(e.ham, self.ham_messages_count, present);
        (spam, ham)
    }

    /// For each vocabulary token in order, its factor under each class for a text whose
    /// distinct tokens are `tokens`.
    pub fn prob_of_msg(&self, tokens: &Vec<String>) -> (r: Vec<TokenEvidence>)
        requires
            self.wf(),
        ensures
            self@.evidence_for(r@, string_views(tokens@).to_set()),
    {
        let ghost q = string_views(tokens@).to_set();
        let mut r: Vec<TokenEvidence> = Vec::new();
        let mut i: usize = 0;
        while i < self.entries.len()
            invariant
                self.wf(),
                0 <= i <= self.entries.len(),
                q == string_views(tokens@).to_set(),
                r@.len() == i,
                forall|k: int|
                    0 <= k < i ==> {
                        let t = self@.vocabulary[k];
                        &&& fraction_is(#[trigger] r@[k].spam, factor(self@.p_spam(t), q.contains(t)))
                        &&& fraction_is(r@[k].ham, factor(self@.p_ham(t), q.contains(t)))
                    },
            decreases self.entries.len() - i,
        {
            let present = contains_token(tokens, &self.entries[i].token);
            assert(self@.vocabulary[i as int] == self.entries@[i as int].token@);
            let (spam, ham) = self.token_factors(i, present);
            r.push(TokenEvidence { spam, ham });
            i += 1;
        }
        assert(self@.evidence_for(r@, q));
        r
    }

    /// For each vocabulary token in order, its factor under each class for `text`: the
    /// likelihood of `text` under a class is the product of that class's factors. With a zero
    /// smoothing strength and no message of a class, that class's denominators are zero.
    pub fn likelihood_factors(&self, text: &str) -> (r: Vec<TokenEvidence>)
        requires
            self.wf(),
        ensures
            self@.evidence_for(r@, message_tokens(text@)),
    {
        let lowered = lowercase(text);
        let tokens = tokenize(lowered.as_str());
        self.prob_of_msg(&tokens)
    }

    /// The known tokens, in the order they were first seen.
    pub fn vocabulary(&self) -> (r: Vec<String>)
        requires
            self.wf(),
        ensures
            string_views(r@) == self@.vocabulary,
    {
        let mut r: Vec<String> = Vec::new();
        let mut i: usize = 0;
        while i < self.entries.len()
            invariant
                0 <= i <= self.entries.len(),
                string_views(r@) == entry_tokens(self.entries@).take(i as int),
            decreases self.entries.len() - i,
        {
            r.push(self.entries[i].token.clone());
            assert(entry_tokens(self.entries@).take(i + 1) =~= entry_tokens(self.entries@).take(
                i as int,
            ).push(self.entries@[i as int].token@));
            assert(string_views(r@) =~= entry_tokens(self.entries@).take(i + 1));
            i += 1;
        }
        assert(entry_tokens(self.entries@).take(i as int) =~= entry_tokens(self.entries@));
        r
    }

    /// How many spam and how many ham messages contained `token`; `None` for a token never
    /// seen.
    pub fn token_counts(&self, token: &str) -> (r: Option<(u64, u64)>)
        requires
            self.wf(),
        ensures
            r is None <==> !self@.stats.counts.contains_key(token@),
            r matches Some(c) ==> self@.stats.counts[token@] == (c.0 as nat, c.1 as nat),
    {
        let owned = token.to_owned();
        proof {
            lemma_counts_of_dom(self.entries@);
        }
        match self.find_token(&owned) {
            Some(i) => {
                proof {
                    lemma_counts_of_get(self.entries@, i as int);
                }
                Some((self.entries[i].spam, self.entries[i].ham))
            },
            None => None,
        }
    }

    pub fn spam_messages_count(&self) -> (r: u64)
        ensures
            r == self@.stats.spam_messages,
    {
        self.spam_messages_count
    }

    pub fn ham_messages_count(&self) -> (r: u64)
        ensures
            r == self@.stats.ham_messages,
    {
        self.ham_messages_count
    }

    /// The smoothing strength as `(alpha_num, alpha_den)`.
    pub fn alpha(&self) -> (r: (u32, u32))
        ensures
            r.0 == self@.alpha_num,
            r.1 == self@.alpha_den,
    {
        (self.alpha_num, self.alpha_den)
    }
}

} // verus!
