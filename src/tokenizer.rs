use vstd::prelude::*;

verus! {

/// A character that may appear inside a token: a lowercase ASCII letter, an ASCII digit
/// or an apostrophe.
pub open spec fn is_token_char(c: char) -> bool {
    ('a' <= c && c <= 'z') || ('0' <= c && c <= '9') || c == '\''
}

/// Scans `s` from left to right, `cur` being the run of token characters read so far:
/// a token character extends the run, any other character closes it.
pub open spec fn runs_from(s: Seq<char>, cur: Seq<char>) -> Seq<Seq<char>>
    decreases s.len(),
{
    if s.len() == 0 {
        if cur.len() > 0 {
            seq![cur]
        } else {
            Seq::empty()
        }
    } else if is_token_char(s[0]) {
        runs_from(s.drop_first(), cur.push(s[0]))
    } else if cur.len() > 0 {
        seq![cur] + runs_from(s.drop_first(), Seq::empty())
    } else {
        runs_from(s.drop_first(), Seq::empty())
    }
}

/// The maximal runs of token characters in `s`, in order of appearance.
pub open spec fn token_runs(s: Seq<char>) -> Seq<Seq<char>> {
    runs_from(s, Seq::empty())
}

/// The distinct tokens of `s`.
pub open spec fn token_set(s: Seq<char>) -> Set<Seq<char>> {
    token_runs(s).to_set()
}

/// The character sequences of a list of strings.
pub open spec fn string_views(v: Seq<String>) -> Seq<Seq<char>> {
    v.map_values(|t: String| t@)
}

/// The lowercase form of a text.
pub uninterp spec fn lower_of(s: Seq<char>) -> Seq<char>;

/// Relies on `str::to_lowercase`: the result is a function of the characters alone.
#[verifier::external_body]
pub(crate) fn lowercase(s: &str) -> (r: String)
    ensures
        r@ == lower_of(s@),
{
    s.to_lowercase()
}

/// Relies on `regex::Regex::new` and `regex::Regex::find_iter` for the pattern
/// `[a-z0-9']+`: the successive non-overlapping leftmost-first matches, each repetition
/// greedy, are exactly the maximal runs of token characters, in order.
#[verifier::external_body]
fn find_token_runs(text: &str) -> (r: Vec<String>)
    ensures
        string_views(r@) == token_runs(text@),
{
    let re = regex::Regex::new(r"[a-z0-9']+").unwrap();
    re.find_iter(text).map(|m| m.as_str().to_string()).collect()
}

/// Whether `t` is among `v`.
pub fn contains_token(v: &Vec<String>, t: &String) -> (r: bool)
    ensures
        r == string_views(v@).contains(t@),
{
    let mut i: usize = 0;
    while i < v.len()
        invariant
            0 <= i <= v.len(),
            forall|k: int| 0 <= k < i ==> v@[k]@ != t@,
        decreases v.len() - i,
    {
        if v[i] == *t {
            assert(string_views(v@)[i as int] == t@);
            return true;
        }
        i += 1;
    }
    assert(!string_views(v@).contains(t@)) by {
        if string_views(v@).contains(t@) {
            let k = choose|k: int| 0 <= k < v@.len() && string_views(v@)[k] == t@;
            assert(v@[k]@ == t@);
        }
    }
    false
}

/// The distinct tokens of a text that is already lowercase, each once.
pub fn tokenize(lower_case_text: &str) -> (r: Vec<String>)
    ensures
        string_views(r@).to_set() == token_set(lower_case_text@),
        string_views(r@).no_duplicates(),
{
    let runs = find_token_runs(lower_case_text);
    let mut r: Vec<String> = Vec::new();
    let mut i: usize = 0;
    while i < runs.len()
        invariant
            0 <= i <= runs.len(),
            string_views(runs@) == token_runs(lower_case_text@),
            string_views(r@).no_duplicates(),
            string_views(r@).to_set() == string_views(runs@).take(i as int).to_set(),
        decreases runs.len() - i,
    {
        let ghost before = string_views(r@);
        let fresh = !contains_token(&r, &runs[i]);
        if fresh {
            r.push(runs[i].clone());
            assert(string_views(r@) =~= before.push(runs@[i as int]@));
        }
        assert(string_views(runs@).take(i + 1) =~= string_views(runs@).take(i as int).push(
            runs@[i as int]@,
        ));
        let ghost x = runs@[i as int]@;
        proof {
            string_views(runs@).take(i as int).lemma_push_to_set_commute(x);
            before.lemma_push_to_set_commute(x);
            if !fresh {
                assert(before.to_set().insert(x) =~= before.to_set());
            }
        }
        assert(string_views(r@).to_set() =~= string_views(runs@).take(i + 1).to_set());
        i += 1;
    }
    assert(string_views(runs@).take(runs.len() as int) =~= string_views(runs@));
    r
}

/// A non-empty run of token characters.
pub open spec fn is_token(t: Seq<char>) -> bool {
    t.len() > 0 && forall|k: int| 0 <= k < t.len() ==> is_token_char(#[trigger] t[k])
}

/// Tokens written one after another, separated by single spaces.
pub open spec fn join_tokens(ts: Seq<Seq<char>>) -> Seq<char>
    decreases ts.len(),
{
    if ts.len() == 0 {
        Seq::empty()
    } else if ts.len() == 1 {
        ts[0]
    } else {
        ts[0] + seq![' '] + join_tokens(ts.drop_first())
    }
}

proof fn lemma_runs_through_token(t: Seq<char>, rest: Seq<char>, cur: Seq<char>)
    requires
        forall|k: int| 0 <= k < t.len() ==> is_token_char(#[trigger] t[k]),
    ensures
        runs_from(t + rest, cur) == runs_from(rest, cur + t),
    decreases t.len(),
{
    if t.len() == 0 {
        assert(t + rest =~= rest);
        assert(cur + t =~= cur);
    } else {
        let s = t + rest;
        assert(s[0] == t[0]);
        assert(s.drop_first() =~= t.drop_first() + rest);
        assert(cur.push(t[0]) + t.drop_first() =~= cur + t);
        assert forall|k: int| 0 <= k < t.drop_first().len() implies is_token_char(
            #[trigger] t.drop_first()[k],
        ) by {
            assert(t.drop_first()[k] == t[k + 1]);
        }
        lemma_runs_through_token(t.drop_first(), rest, cur.push(t[0]));
    }
}

/// Tokenizing tokens that are written out separated by spaces gives back those tokens,
/// in order; so the token set of such a text is the set of the tokens written.
pub proof fn lemma_tokenize_joined_tokens(ts: Seq<Seq<char>>)
    requires
        forall|i: int| 0 <= i < ts.len() ==> is_token(#[trigger] ts[i]),
    ensures
        token_runs(join_tokens(ts)) == ts,
        token_set(join_tokens(ts)) == ts.to_set(),
    decreases ts.len(),
{
    let e = Seq::<char>::empty();
    if ts.len() == 0 {
        assert(token_runs(join_tokens(ts)) =~= ts);
    } else if ts.len() == 1 {
        assert(ts[0] =~= ts[0] + e);
        assert(is_token(ts[0]));
        lemma_runs_through_token(ts[0], e, e);
        assert(e + ts[0] =~= ts[0]);
        assert(token_runs(join_tokens(ts)) =~= ts);
    } else {
        let rest = ts.drop_first();
        assert forall|i: int| 0 <= i < rest.len() implies is_token(#[trigger] rest[i]) by {
            assert(rest[i] == ts[i + 1]);
        }
        lemma_tokenize_joined_tokens(rest);
        let tail = seq![' '] + join_tokens(rest);
        assert(join_tokens(ts) =~= ts[0] + tail);
        assert(is_token(ts[0]));
        lemma_runs_through_token(ts[0], tail, e);
        assert(e + ts[0] =~= ts[0]);
        assert(tail[0] == ' ');
        assert(tail.drop_first() =~= join_tokens(rest));
        assert(seq![ts[0]] + rest =~= ts);
    }
}

} // verus!
