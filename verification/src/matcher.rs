//! Deciding whether offers of different bookmakers are about the same event, and lining
//! up their outcomes. Titles are split into tokens and compared token by token; the
//! similarities are fixed-point numbers where `SIM_ONE` stands for 1.

use vstd::prelude::*;
use crate::markets::{Game, Kind, Offer, Outcome, OfferView, OutcomeView, is_draw};
use crate::text::{
    is_alphabetic, is_uppercase, is_whitespace, is_decimal_digit, lowercase, str_lowercase,
    char_is_alphabetic, char_is_uppercase, char_is_whitespace, char_is_decimal_digit,
    char_lowercase, str_to_lowercase, chars_of, string_from_chars, str_eq,
};

verus! {

/// What a similarity of 1 is in the fixed-point similarities of this module.
pub const SIM_ONE: u64 = 1_000_000;

/// The character a title character contributes to a token: letters and digits in
/// lower case (the first character of `to_lowercase`), nothing for anything else.
pub open spec fn transform(c: char) -> Option<char> {
    if (is_alphabetic(c) || is_decimal_digit(c)) && lowercase(c).len() > 0 {
        Some(lowercase(c)[0])
    } else {
        None
    }
}

/// The characters of a token: the transformed characters of its word.
pub open spec fn token_chars(word: Seq<char>) -> Seq<char>
    decreases word.len(),
{
    if word.len() == 0 {
        Seq::empty()
    } else {
        match transform(word.last()) {
            Some(c) => token_chars(word.drop_last()).push(c),
            None => token_chars(word.drop_last()),
        }
    }
}

/// Characters that separate the words of a title.
pub open spec fn is_separator(c: char) -> bool {
    is_whitespace(c) || c == '-' || c == '/'
}

/// The words of a title between separators, empty words included (as `str::split`).
pub open spec fn split_words(s: Seq<char>) -> Seq<Seq<char>>
    decreases s.len(),
{
    if s.len() == 0 {
        seq![Seq::empty()]
    } else {
        let words = split_words(s.drop_last());
        if is_separator(s.last()) {
            words.push(Seq::empty())
        } else {
            words.update(words.len() - 1, words.last().push(s.last()))
        }
    }
}

/// Words that say nothing about a team: "de", "fc", "city", "club" and the like.
pub open spec fn is_filler(word: Seq<char>) -> bool {
    let l = str_lowercase(word);
    ||| l == ""@
    ||| l == "de"@
    ||| l == "fc"@
    ||| l == "sc"@
    ||| l == "fk"@
    ||| l == "city"@
    ||| l == "club"@
    ||| l == "state"@
    ||| l == "st."@
}

/// The words that are tokens: no fillers, and at least one letter or digit.
pub open spec fn keep_tokens(words: Seq<Seq<char>>) -> Seq<Seq<char>>
    decreases words.len(),
{
    if words.len() == 0 {
        Seq::empty()
    } else {
        let w = words.last();
        if !is_filler(w) && token_chars(w).len() > 0 {
            keep_tokens(words.drop_last()).push(w)
        } else {
            keep_tokens(words.drop_last())
        }
    }
}

/// The tokens of a title, in order.
pub open spec fn tokens(title: Seq<char>) -> Seq<Seq<char>> {
    keep_tokens(split_words(title))
}

/// Whether a token is an abbreviation: all its letters are upper case.
pub open spec fn is_abbreviation(word: Seq<char>) -> bool {
    forall|i: int| 0 <= i < word.len() && is_alphabetic(#[trigger] word[i]) ==> is_uppercase(word[i])
}

/// Whether the characters of `b` start the characters of `a`.
pub open spec fn chars_start_with(a: Seq<char>, b: Seq<char>) -> bool {
    b.len() <= a.len() && a.take(b.len() as int) == b
}

/// The character a title character contributes to a token, if any.
pub fn transform_char(c: char) -> (r: Option<char>)
    ensures
        r == transform(c),
{
    if char_is_alphabetic(c) || char_is_decimal_digit(c) {
        let l = char_lowercase(c);
        if l.len() > 0 {
            Some(l[0])
        } else {
            None
        }
    } else {
        None
    }
}

/// The token characters of a word.
fn token_chars_of(word: &Vec<char>) -> (v: Vec<char>)
    ensures
        v@ == token_chars(word@),
{
    let mut v: Vec<char> = Vec::new();
    let mut i: usize = 0;
    while i < word.len()
        invariant
            i <= word.len(),
            v@ == token_chars(word@.take(i as int)),
        decreases word.len() - i,
    {
        proof {
            let t = word@.take(i as int + 1);
            assert(t.drop_last() == word@.take(i as int));
            assert(t.last() == word@[i as int]);
        }
        match transform_char(word[i]) {
            Some(c) => v.push(c),
            None => {},
        }
        i = i + 1;
    }
    proof {
        assert(word@.take(word.len() as int) == word@);
    }
    v
}

/// A word of a title together with its token characters.
pub struct Token {
    word: Vec<char>,
    chars: Vec<char>,
}

impl View for Token {
    type V = Seq<char>;

    closed spec fn view(&self) -> Seq<char> {
        self.word@
    }
}

impl Token {
    #[verifier::type_invariant]
    spec fn chars_match(&self) -> bool {
        self.chars@ == token_chars(self.word@)
    }

    fn from_chars(word: Vec<char>) -> (t: Token)
        ensures
            t@ == word@,
    {
        let chars = token_chars_of(&word);
        Token { word, chars }
    }

    /// The token of a word.
    pub fn from(word: &str) -> (t: Token)
        ensures
            t@ == word@,
    {
        Token::from_chars(chars_of(word))
    }

    /// The token characters.
    fn chars(&self) -> (r: &Vec<char>)
        ensures
            r@ == token_chars(self@),
    {
        proof {
            use_type_invariant(self);
        }
        &self.chars
    }

    /// Whether all letters of the word are upper case.
    pub fn is_abbr(&self) -> (r: bool)
        ensures
            r == is_abbreviation(self@),
    {
        let mut i: usize = 0;
        while i < self.word.len()
            invariant
                i <= self.word.len(),
                forall|j: int| 0 <= j < i && is_alphabetic(#[trigger] self.word@[j]) ==> is_uppercase(self.word@[j]),
            decreases self.word.len() - i,
        {
            let c = self.word[i];
            if char_is_alphabetic(c) && !char_is_uppercase(c) {
                return false;
            }
            i = i + 1;
        }
        true
    }

    /// The number of token characters.
    pub fn len(&self) -> (r: usize)
        ensures
            r == token_chars(self@).len(),
    {
        self.chars().len()
    }

    /// Whether the token has no characters.
    pub fn is_empty(&self) -> (r: bool)
        ensures
            r == (token_chars(self@).len() == 0),
    {
        self.chars().len() == 0
    }

    /// Whether the characters of `other` start the characters of this token.
    pub fn starts_with(&self, other: &Token) -> (r: bool)
        ensures
            r == chars_start_with(token_chars(self@), token_chars(other@)),
    {
        let a = self.chars();
        let b = other.chars();
        if b.len() > a.len() {
            return false;
        }
        let mut i: usize = 0;
        while i < b.len()
            invariant
                a@ == token_chars(self@),
                b@ == token_chars(other@),
                b.len() <= a.len(),
                i <= b.len(),
                forall|j: int| 0 <= j < i ==> a@[j] == b@[j],
            decreases b.len() - i,
        {
            if a[i] != b[i] {
                proof {
                    assert(a@.take(b.len() as int)[i as int] != b@[i as int]);
                }
                return false;
            }
            i = i + 1;
        }
        proof {
            assert(a@.take(b.len() as int) =~= b@);
        }
        true
    }

    /// Whether two tokens have the same characters.
    pub fn equals(&self, other: &Token) -> (r: bool)
        ensures
            r == (token_chars(self@) == token_chars(other@)),
    {
        let a = self.chars();
        let b = other.chars();
        if a.len() != b.len() {
            return false;
        }
        let mut i: usize = 0;
        while i < a.len()
            invariant
                a@ == token_chars(self@),
                b@ == token_chars(other@),
                a.len() == b.len(),
                i <= a.len(),
                forall|j: int| 0 <= j < i ==> a@[j] == b@[j],
            decreases a.len() - i,
        {
            if a[i] != b[i] {
                proof {
                    assert(a@[i as int] != b@[i as int]);
                }
                return false;
            }
            i = i + 1;
        }
        proof {
            assert(a@ =~= b@);
        }
        true
    }

    /// The first token character.
    fn first_char(&self) -> (c: char)
        requires
            token_chars(self@).len() > 0,
        ensures
            c == token_chars(self@)[0],
    {
        self.chars()[0]
    }
}

/// The views of a list of tokens.
pub open spec fn token_views(ts: Seq<Token>) -> Seq<Seq<char>> {
    ts.map_values(|t: Token| t@)
}

/// Whether a word is one of the fillers.
fn word_is_filler(word: &Vec<char>) -> (r: bool)
    ensures
        r == is_filler(word@),
{
    let s = string_from_chars(word.clone());
    let l = str_to_lowercase(s.as_str());
    let l = l.as_str();
    str_eq(l, "") || str_eq(l, "de") || str_eq(l, "fc") || str_eq(l, "sc") || str_eq(l, "fk")
        || str_eq(l, "city") || str_eq(l, "club") || str_eq(l, "state") || str_eq(l, "st.")
}

/// The words of a title (as `split_words`).
fn split_title(title: &str) -> (words: Vec<Vec<char>>)
    ensures
        words@.map_values(|w: Vec<char>| w@) == split_words(title@),
{
    let cs = chars_of(title);
    let mut words: Vec<Vec<char>> = Vec::new();
    let mut current: Vec<char> = Vec::new();
    let mut i: usize = 0;
    while i < cs.len()
        invariant
            i <= cs.len(),
            cs@ == title@,
            words@.map_values(|w: Vec<char>| w@).push(current@) == split_words(cs@.take(i as int)),
        decreases cs.len() - i,
    {
        let c = cs[i];
        let ghost before = words@.map_values(|w: Vec<char>| w@).push(current@);
        proof {
            let t = cs@.take(i as int + 1);
            assert(t.drop_last() == cs@.take(i as int));
            assert(t.last() == c);
        }
        if char_is_whitespace(c) || c == '-' || c == '/' {
            let done = current;
            words.push(done);
            current = Vec::new();
            proof {
                assert(words@.map_values(|w: Vec<char>| w@).push(current@) =~= before.push(Seq::empty()));
            }
        } else {
            current.push(c);
            proof {
                assert(words@.map_values(|w: Vec<char>| w@).push(current@) =~= before.update(
                    before.len() - 1,
                    before.last().push(c),
                ));
            }
        }
        i = i + 1;
    }
    proof {
        assert(cs@.take(cs.len() as int) == cs@);
    }
    let ghost before = words@.map_values(|w: Vec<char>| w@).push(current@);
    words.push(current);
    proof {
        assert(words@.map_values(|w: Vec<char>| w@) =~= before);
    }
    words
}

/// The tokens of a title: its words, without fillers and words with no letter or digit.
pub fn get_tokens(title: &str) -> (ts: Vec<Token>)
    ensures
        token_views(ts@) == tokens(title@),
{
    let words = split_title(title);
    let ghost ws = words@.map_values(|w: Vec<char>| w@);
    let mut ts: Vec<Token> = Vec::new();
    let mut i: usize = 0;
    while i < words.len()
        invariant
            i <= words.len(),
            ws == words@.map_values(|w: Vec<char>| w@),
            token_views(ts@) == keep_tokens(ws.take(i as int)),
        decreases words.len() - i,
    {
        proof {
            let t = ws.take(i as int + 1);
            assert(t.drop_last() == ws.take(i as int));
            assert(t.last() == words@[i as int]@);
        }
        let filler = word_is_filler(&words[i]);
        let token = Token::from_chars(words[i].clone());
        if !filler && !token.is_empty() {
            let ghost before = token_views(ts@);
            ts.push(token);
            proof {
                assert(token_views(ts@) =~= before.push(words@[i as int]@));
            }
        }
        i = i + 1;
    }
    proof {
        assert(ws.take(words.len() as int) == ws);
    }
    ts
}

} // verus!

verus! {

/// `SIM_ONE * n / d`, rounded down: the fixed-point similarity of the ratio `n / d`.
pub open spec fn fixed_ratio(n: nat, d: nat) -> nat
    recommends
        d > 0,
{
    ((SIM_ONE as int) * (n as int) / (d as int)) as nat
}

/// How far an abbreviation is matched by the first characters of tokens, taken in order:
/// the number of its characters matched greedily.
pub open spec fn abbr_progress(abbr: Seq<char>, toks: Seq<Seq<char>>) -> nat
    decreases toks.len(),
{
    if toks.len() == 0 {
        0
    } else {
        let j = abbr_progress(abbr, toks.drop_last());
        let first = token_chars(toks.last());
        if j < abbr.len() && first.len() > 0 && abbr[j as int] == first[0] {
            j + 1
        } else {
            j
        }
    }
}

/// How well an abbreviation token fits the tokens of a title: the share of its
/// characters that start the title's tokens in order.
pub open spec fn abbreviation_score(abbr: Seq<char>, toks: Seq<Seq<char>>) -> nat {
    fixed_ratio(abbr_progress(token_chars(abbr), toks), token_chars(abbr).len())
}

/// How well a token of the left title fits a token of the right title: 1 when equal,
/// the share of the left token that the right one starts when the left token is longer
/// than three characters, the abbreviation score when the left token is an abbreviation,
/// and 0 otherwise.
pub open spec fn pair_score(l: Seq<char>, r: Seq<char>, right: Seq<Seq<char>>) -> nat {
    let lc = token_chars(l);
    let rc = token_chars(r);
    if lc == rc {
        SIM_ONE as nat
    } else if lc.len() > 3 && chars_start_with(lc, rc) {
        fixed_ratio(rc.len(), lc.len())
    } else if is_abbreviation(l) {
        abbreviation_score(l, right)
    } else {
        0
    }
}

/// The best score of a left token against some tokens of the right title.
pub open spec fn best_score(l: Seq<char>, rs: Seq<Seq<char>>, right: Seq<Seq<char>>) -> nat
    decreases rs.len(),
{
    if rs.len() == 0 {
        0
    } else {
        let prev = best_score(l, rs.drop_last(), right);
        let s = pair_score(l, rs.last(), right);
        if s > prev {
            s
        } else {
            prev
        }
    }
}

/// The sum of the best scores of some left tokens against the right tokens.
pub open spec fn total_score(ls: Seq<Seq<char>>, right: Seq<Seq<char>>) -> nat
    decreases ls.len(),
{
    if ls.len() == 0 {
        0
    } else {
        total_score(ls.drop_last(), right) + best_score(ls.last(), right, right)
    }
}

/// How much the tokens of the left title fit the right title: the mean of their best
/// scores; none (not a number) when the left title has no tokens.
pub open spec fn tokens_similarity(left: Seq<char>, right: Seq<char>) -> Option<nat> {
    let ls = tokens(left);
    if ls.len() == 0 {
        None
    } else {
        Some(total_score(ls, tokens(right)) / ls.len())
    }
}

/// The larger of two similarities, where a missing one (not a number) gives way to the
/// other, as `f64::max` does.
pub open spec fn nan_max(a: Option<nat>, b: Option<nat>) -> Option<nat> {
    match (a, b) {
        (None, _) => b,
        (_, None) => a,
        (Some(x), Some(y)) => Some(if x >= y { x } else { y }),
    }
}

/// How similar two titles are: the better of the two directions.
pub open spec fn titles_similarity(left: Seq<char>, right: Seq<char>) -> Option<nat> {
    nan_max(tokens_similarity(left, right), tokens_similarity(right, left))
}

proof fn lemma_fixed_ratio_bound(n: nat, d: nat)
    requires
        d > 0,
        n <= d,
    ensures
        fixed_ratio(n, d) <= SIM_ONE,
{
    let s = SIM_ONE as int;
    let ni = n as int;
    let di = d as int;
    assert(s * ni <= s * di) by (nonlinear_arith)
        requires
            ni <= di,
            s > 0,
    ;
    assert((s * ni) / di <= (s * di) / di) by (nonlinear_arith)
        requires
            s * ni <= s * di,
            di > 0,
    ;
    assert((s * di) / di == s) by (nonlinear_arith)
        requires
            di > 0,
    ;
}

proof fn lemma_abbr_progress_bound(abbr: Seq<char>, toks: Seq<Seq<char>>)
    ensures
        abbr_progress(abbr, toks) <= abbr.len(),
    decreases toks.len(),
{
    if toks.len() > 0 {
        lemma_abbr_progress_bound(abbr, toks.drop_last());
    }
}

proof fn lemma_pair_score_bound(l: Seq<char>, r: Seq<char>, right: Seq<Seq<char>>)
    requires
        token_chars(l).len() > 0,
    ensures
        pair_score(l, r, right) <= SIM_ONE,
{
    let lc = token_chars(l);
    let rc = token_chars(r);
    if lc == rc {
    } else if lc.len() > 3 && chars_start_with(lc, rc) {
        lemma_fixed_ratio_bound(rc.len(), lc.len());
    } else if is_abbreviation(l) {
        lemma_abbr_progress_bound(lc, right);
        lemma_fixed_ratio_bound(abbr_progress(lc, right), lc.len());
    }
}

proof fn lemma_best_score_bound(l: Seq<char>, rs: Seq<Seq<char>>, right: Seq<Seq<char>>)
    requires
        token_chars(l).len() > 0,
    ensures
        best_score(l, rs, right) <= SIM_ONE,
    decreases rs.len(),
{
    if rs.len() > 0 {
        lemma_best_score_bound(l, rs.drop_last(), right);
        lemma_pair_score_bound(l, rs.last(), right);
    }
}

/// Tokens of a title have characters.
proof fn lemma_keep_tokens_nonempty(words: Seq<Seq<char>>)
    ensures
        forall|i: int| 0 <= i < keep_tokens(words).len() ==> token_chars(#[trigger] keep_tokens(words)[i]).len() > 0,
    decreases words.len(),
{
    if words.len() > 0 {
        let init = words.drop_last();
        lemma_keep_tokens_nonempty(init);
        let k = keep_tokens(words);
        let ki = keep_tokens(init);
        let w = words.last();
        if !is_filler(w) && token_chars(w).len() > 0 {
            assert forall|i: int| 0 <= i < k.len() implies token_chars(#[trigger] k[i]).len() > 0 by {
                if i < ki.len() {
                    assert(k[i] == ki[i]);
                }
            }
        }
    }
}

proof fn lemma_total_score_bound(ls: Seq<Seq<char>>, right: Seq<Seq<char>>)
    requires
        forall|i: int| 0 <= i < ls.len() ==> token_chars(#[trigger] ls[i]).len() > 0,
    ensures
        total_score(ls, right) <= ls.len() * SIM_ONE,
    decreases ls.len(),
{
    if ls.len() > 0 {
        let init = ls.drop_last();
        assert forall|i: int| 0 <= i < init.len() implies token_chars(#[trigger] init[i]).len() > 0 by {
            assert(init[i] == ls[i]);
        }
        lemma_total_score_bound(init, right);
        lemma_best_score_bound(ls.last(), right, right);
        assert(ls.len() * SIM_ONE == (ls.len() - 1) * SIM_ONE + SIM_ONE) by (nonlinear_arith);
    }
}

/// The abbreviation score of `abbr` against tokens.
fn abbreviation_score_of(abbr: &Token, toks: &Vec<Token>) -> (r: u64)
    requires
        token_chars(abbr@).len() > 0,
    ensures
        r == abbreviation_score(abbr@, token_views(toks@)),
        r <= SIM_ONE,
{
    let a = abbr.chars();
    let ghost tv = token_views(toks@);
    let mut j: usize = 0;
    let mut i: usize = 0;
    while i < toks.len() && j < a.len()
        invariant
            a@ == token_chars(abbr@),
            a.len() > 0,
            tv == token_views(toks@),
            i <= toks.len(),
            j == abbr_progress(a@, tv.take(i as int)),
            j <= a.len(),
        decreases toks.len() - i,
    {
        proof {
            let t = tv.take(i as int + 1);
            assert(t.drop_last() == tv.take(i as int));
            assert(t.last() == toks@[i as int]@);
        }
        let t = &toks[i];
        if !t.is_empty() {
            if a[j] == t.first_char() {
                j = j + 1;
            }
        }
        i = i + 1;
    }
    proof {
        if j < a.len() {
            assert(tv.take(toks.len() as int) == tv);
        } else {
            // Every character of the abbreviation is matched: later tokens change nothing.
            lemma_abbr_progress_full(a@, tv, i as nat);
        }
        lemma_abbr_progress_bound(a@, tv);
        lemma_fixed_ratio_bound(j as nat, a.len() as nat);
    }
    ((SIM_ONE as u128) * (j as u128) / (a.len() as u128)) as u64
}

/// Once the abbreviation is matched completely, further tokens keep it matched.
proof fn lemma_abbr_progress_full(abbr: Seq<char>, toks: Seq<Seq<char>>, i: nat)
    requires
        i <= toks.len(),
        abbr_progress(abbr, toks.take(i as int)) == abbr.len(),
    ensures
        abbr_progress(abbr, toks) == abbr.len(),
    decreases toks.len() - i,
{
    if i < toks.len() {
        let t = toks.take(i as int + 1);
        assert(t.drop_last() == toks.take(i as int));
        lemma_abbr_progress_full(abbr, toks, i + 1);
    } else {
        assert(toks.take(i as int) == toks);
    }
}

/// How well an abbreviation fits a title: the share of its characters that start the
/// title's tokens in order.
pub fn abbreviation_sim(abbr: &Token, title: &str) -> (r: u64)
    requires
        token_chars(abbr@).len() > 0,
    ensures
        r == abbreviation_score(abbr@, tokens(title@)),
{
    let toks = get_tokens(title);
    abbreviation_score_of(abbr, &toks)
}

/// The score of a left token against a right token.
fn pair_score_of(l: &Token, r: &Token, right: &Vec<Token>) -> (s: u64)
    requires
        token_chars(l@).len() > 0,
    ensures
        s == pair_score(l@, r@, token_views(right@)),
        s <= SIM_ONE,
{
    proof {
        lemma_pair_score_bound(l@, r@, token_views(right@));
    }
    if l.equals(r) {
        SIM_ONE
    } else if l.len() > 3 && l.starts_with(r) {
        proof {
            lemma_fixed_ratio_bound(token_chars(r@).len(), token_chars(l@).len());
        }
        ((SIM_ONE as u128) * (r.len() as u128) / (l.len() as u128)) as u64
    } else if l.is_abbr() {
        abbreviation_score_of(l, right)
    } else {
        0
    }
}

/// The mean best score of the left tokens against the right tokens.
fn tokens_sim_of(left: &Vec<Token>, right: &Vec<Token>) -> (r: Option<u64>)
    requires
        forall|i: int| 0 <= i < left.len() ==> token_chars(#[trigger] left@[i]@).len() > 0,
    ensures
        token_views(left@).len() == 0 ==> r is None,
        token_views(left@).len() > 0 ==> {
            let x = total_score(token_views(left@), token_views(right@)) / token_views(left@).len();
            x <= SIM_ONE && r == Some(x as u64)
        },
{
    let ghost lv = token_views(left@);
    let ghost rv = token_views(right@);
    if left.len() == 0 {
        return None;
    }
    let mut total: u128 = 0;
    let mut i: usize = 0;
    while i < left.len()
        invariant
            lv == token_views(left@),
            rv == token_views(right@),
            forall|k: int| 0 <= k < left.len() ==> token_chars(#[trigger] left@[k]@).len() > 0,
            i <= left.len(),
            total == total_score(lv.take(i as int), rv),
            total <= i * SIM_ONE,
        decreases left.len() - i,
    {
        let mut best: u64 = 0;
        let mut k: usize = 0;
        while k < right.len()
            invariant
                rv == token_views(right@),
                i < left.len(),
                token_chars(left@[i as int]@).len() > 0,
                k <= right.len(),
                best == best_score(left@[i as int]@, rv.take(k as int), rv),
                best <= SIM_ONE,
            decreases right.len() - k,
        {
            proof {
                let t = rv.take(k as int + 1);
                assert(t.drop_last() == rv.take(k as int));
                assert(t.last() == right@[k as int]@);
            }
            let s = pair_score_of(&left[i], &right[k], right);
            if s > best {
                best = s;
            }
            k = k + 1;
        }
        proof {
            assert(rv.take(right.len() as int) == rv);
            let t = lv.take(i as int + 1);
            assert(t.drop_last() == lv.take(i as int));
            assert(t.last() == left@[i as int]@);
            assert((i + 1) * SIM_ONE == i * SIM_ONE + SIM_ONE) by (nonlinear_arith);
        }
        total = total + best as u128;
        i = i + 1;
    }
    proof {
        assert(lv.take(left.len() as int) == lv);
        assert((total as int) / (left.len() as int) <= SIM_ONE) by (nonlinear_arith)
            requires
                total <= left.len() * SIM_ONE,
                left.len() > 0,
        ;
    }
    Some((total / (left.len() as u128)) as u64)
}

/// Tokens produced for a title have characters.
proof fn lemma_tokens_nonempty(ts: Seq<Token>, title: Seq<char>)
    requires
        token_views(ts) == tokens(title),
    ensures
        forall|i: int| 0 <= i < ts.len() ==> token_chars(#[trigger] ts[i]@).len() > 0,
{
    lemma_keep_tokens_nonempty(split_words(title));
    assert forall|i: int| 0 <= i < ts.len() implies token_chars(#[trigger] ts[i]@).len() > 0 by {
        assert(token_views(ts)[i] == ts[i]@);
    }
}

/// How much the tokens of the left title fit the right title (the mean of their best
/// scores), or none when the left title has no tokens.
pub fn tokens_sim(left: &str, right: &str) -> (r: Option<u64>)
    ensures
        match tokens_similarity(left@, right@) {
            Some(x) => x <= SIM_ONE && r == Some(x as u64),
            None => r is None,
        },
{
    let l = get_tokens(left);
    let rt = get_tokens(right);
    proof {
        lemma_tokens_nonempty(l@, left@);
    }
    tokens_sim_of(&l, &rt)
}

/// The larger of two similarities, a missing one giving way to the other.
fn max_sim(a: Option<u64>, b: Option<u64>) -> (r: Option<u64>)
    ensures
        r == match (a, b) {
            (None, _) => b,
            (_, None) => a,
            (Some(x), Some(y)) => Some(if x >= y { x } else { y }),
        },
{
    match (a, b) {
        (None, _) => b,
        (_, None) => a,
        (Some(x), Some(y)) => Some(if x >= y { x } else { y }),
    }
}

/// How similar two titles are: the better of the two directions of `tokens_sim`.
pub fn titles_sim(left: &str, right: &str) -> (r: Option<u64>)
    ensures
        match titles_similarity(left@, right@) {
            Some(x) => x <= SIM_ONE && r == Some(x as u64),
            None => r is None,
        },
{
    let a = tokens_sim(left, right);
    let b = tokens_sim(right, left);
    max_sim(a, b)
}

} // verus!

verus! {

/// Rounds a start date (Unix seconds) to the nearest half hour, halves rounding up.
pub open spec fn rounded_date(ts: u32) -> int {
    (ts + 900) / 1800 * 1800
}

/// Rounds a start date to the nearest half hour, so that bookmakers that disagree by a
/// few minutes still agree.
pub fn round_date(ts: u32) -> (r: u32)
    requires
        ts <= crate::markets::MAX_DATE,
    ensures
        r == rounded_date(ts),
{
    (ts + 900) / 1800 * 1800
}

/// What offers about the same event share: the start rounded to half hours, the game,
/// the kind of market and the number of outcomes.
#[derive(Debug, Clone, Copy, PartialEq, Eq, Structural)]
pub struct Headline {
    pub date: u32,
    pub game: Game,
    pub kind: Kind,
    pub outcome_count: usize,
}

/// The headline of an offer.
pub open spec fn headline(o: OfferView) -> Headline {
    Headline {
        date: rounded_date(o.date) as u32,
        game: o.game,
        kind: o.kind,
        outcome_count: o.outcomes.len() as usize,
    }
}

/// The headline of an offer.
pub fn get_headline(offer: &Offer) -> (h: Headline)
    requires
        offer.well_formed(),
    ensures
        h == headline(offer@),
{
    Headline {
        date: round_date(offer.date),
        game: offer.game,
        kind: offer.kind,
        outcome_count: offer.outcomes.len(),
    }
}

/// How similar two odds are: `1 - |l - r| / (l + r)`, which is `2 min(l, r) / (l + r)`;
/// none (not a number) when both are zero.
pub open spec fn coefs_similarity(l: u32, r: u32) -> Option<nat> {
    if l + r == 0 {
        None
    } else {
        Some(fixed_ratio(2 * (if l <= r { l as nat } else { r as nat }), (l + r) as nat))
    }
}

/// How similar two odds are (see `coefs_similarity`).
pub fn coefs_sim(lhs: u32, rhs: u32) -> (r: Option<u64>)
    ensures
        match coefs_similarity(lhs, rhs) {
            Some(x) => x <= SIM_ONE && r == Some(x as u64),
            None => r is None,
        },
{
    let sum = lhs as u64 + rhs as u64;
    if sum == 0 {
        return None;
    }
    let min = if lhs <= rhs { lhs as u64 } else { rhs as u64 };
    proof {
        lemma_fixed_ratio_bound((2 * min) as nat, sum as nat);
    }
    Some(((SIM_ONE as u128) * (2 * min as u128) / (sum as u128)) as u64)
}

/// How similar two outcomes are, in fifths of the fixed-point scale: 4 parts title
/// similarity and 1 part odds similarity (`0.8 * titles + 0.2 * odds`, times 5); none
/// when either is not a number.
pub open spec fn outcome_similarity(a: OutcomeView, b: OutcomeView) -> Option<nat> {
    match (titles_similarity(a.0, b.0), coefs_similarity(a.1, b.1)) {
        (Some(t), Some(c)) => Some(4 * t + c),
        _ => None,
    }
}

/// The most similar candidate to an outcome: its index and its similarity; the first of
/// the best is taken, and the index is 0 when no candidate is similar at all.
pub open spec fn most_similar(a: OutcomeView, cands: Seq<OutcomeView>) -> (int, nat)
    decreases cands.len(),
{
    if cands.len() == 0 {
        (0, 0)
    } else {
        let (idx, best) = most_similar(a, cands.drop_last());
        match outcome_similarity(a, cands.last()) {
            Some(s) => if s > best {
                (cands.len() - 1, s)
            } else {
                (idx, best)
            },
            None => (idx, best),
        }
    }
}

/// Exchanges two entries of a sequence.
pub open spec fn swap_entries(p: Seq<int>, i: int, j: int) -> Seq<int> {
    p.update(i, p[j]).update(j, p[i])
}

/// The arrangement of the outcomes after lining up the first `k` outcomes of the etalon:
/// for each etalon outcome in turn, the most similar of the outcomes not yet placed is
/// swapped into its position.
pub open spec fn collate_steps(etalon: Seq<OutcomeView>, outs: Seq<OutcomeView>, k: nat) -> Seq<int>
    decreases k,
{
    if k == 0 {
        Seq::new(outs.len(), |j: int| j)
    } else {
        let p = collate_steps(etalon, outs, (k - 1) as nat);
        let i = k - 1;
        let rest = p.skip(i).map_values(|j: int| outs[j]);
        swap_entries(p, i, i + most_similar(etalon[i], rest).0)
    }
}

/// The outcomes lined up with an etalon offer: the indices of the outcomes, in the order
/// of the etalon's outcomes.
pub open spec fn collation(etalon: Seq<OutcomeView>, outs: Seq<OutcomeView>) -> Seq<int> {
    collate_steps(etalon, outs, etalon.len())
}

/// Whether a sequence holds each of `0..n` exactly once.
pub open spec fn is_permutation(p: Seq<int>, n: nat) -> bool {
    &&& p.len() == n
    &&& forall|i: int| 0 <= i < n ==> 0 <= #[trigger] p[i] < n
    &&& forall|i: int, j: int| 0 <= i < n && 0 <= j < n && i != j ==> #[trigger] p[i] != #[trigger] p[j]
}

proof fn lemma_most_similar_index(a: OutcomeView, cands: Seq<OutcomeView>)
    ensures
        0 <= most_similar(a, cands).0,
        cands.len() > 0 ==> most_similar(a, cands).0 < cands.len(),
    decreases cands.len(),
{
    if cands.len() > 0 {
        lemma_most_similar_index(a, cands.drop_last());
    }
}

proof fn lemma_collate_steps(etalon: Seq<OutcomeView>, outs: Seq<OutcomeView>, k: nat)
    requires
        k <= etalon.len(),
        etalon.len() <= outs.len(),
    ensures
        is_permutation(collate_steps(etalon, outs, k), outs.len()),
    decreases k,
{
    if k > 0 {
        lemma_collate_steps(etalon, outs, (k - 1) as nat);
        let p = collate_steps(etalon, outs, (k - 1) as nat);
        let i = k - 1;
        let rest = p.skip(i).map_values(|j: int| outs[j]);
        lemma_most_similar_index(etalon[i], rest);
        let idx = i + most_similar(etalon[i], rest).0;
        let q = swap_entries(p, i, idx);
        let n = outs.len();
        assert forall|x: int, y: int| 0 <= x < n && 0 <= y < n && x != y implies #[trigger] q[x] != #[trigger] q[y] by {
            assert(q[x] == if x == idx { p[i] } else if x == i { p[idx] } else { p[x] });
            assert(q[y] == if y == idx { p[i] } else if y == i { p[idx] } else { p[y] });
        }
        assert forall|x: int| 0 <= x < n implies 0 <= #[trigger] q[x] < n by {
            assert(q[x] == if x == idx { p[i] } else if x == i { p[idx] } else { p[x] });
        }
    }
}

/// Lining up the outcomes with an etalon gives every outcome exactly once.
pub proof fn collation_is_permutation(etalon: Seq<OutcomeView>, outs: Seq<OutcomeView>)
    requires
        etalon.len() <= outs.len(),
    ensures
        is_permutation(collation(etalon, outs), outs.len()),
{
    lemma_collate_steps(etalon, outs, etalon.len());
}

/// The outcome similarity of two outcomes.
fn outcome_sim(a: &Outcome, b: &Outcome) -> (r: Option<u64>)
    ensures
        match outcome_similarity(a@, b@) {
            Some(x) => x <= 5 * SIM_ONE && r == Some(x as u64),
            None => r is None,
        },
{
    let t = titles_sim(a.0.as_str(), b.0.as_str());
    let c = coefs_sim(a.1, b.1);
    match (t, c) {
        (Some(t), Some(c)) => Some(4 * t + c),
        _ => None,
    }
}

/// The index, among the outcomes at `perm[from..]`, of the most similar one to `lhs`.
fn most_similar_outcome(lhs: &Outcome, outcomes: &Vec<Outcome>, perm: &Vec<usize>, from: usize) -> (r: usize)
    requires
        from <= perm.len(),
        forall|j: int| 0 <= j < perm.len() ==> #[trigger] perm@[j] < outcomes.len(),
    ensures
        r as int == most_similar(
            lhs@,
            perm@.map_values(|x: usize| x as int).skip(from as int).map_values(|j: int| outcomes@.map_values(|o: Outcome| o@)[j]),
        ).0,
{
    let ghost outs = outcomes@.map_values(|o: Outcome| o@);
    let ghost cands = perm@.map_values(|x: usize| x as int).skip(from as int).map_values(|j: int| outs[j]);
    let mut best: u64 = 0;
    let mut index: usize = 0;
    let mut i: usize = from;
    while i < perm.len()
        invariant
            from <= i <= perm.len(),
            forall|j: int| 0 <= j < perm.len() ==> #[trigger] perm@[j] < outcomes.len(),
            outs == outcomes@.map_values(|o: Outcome| o@),
            cands == perm@.map_values(|x: usize| x as int).skip(from as int).map_values(|j: int| outs[j]),
            (index as int, best as nat) == most_similar(lhs@, cands.take(i - from)),
        decreases perm.len() - i,
    {
        proof {
            let t = cands.take(i - from + 1);
            assert(t.drop_last() == cands.take(i - from));
            assert(t.last() == outs[perm@[i as int] as int]);
            assert(outs[perm@[i as int] as int] == outcomes@[perm@[i as int] as int]@);
        }
        match outcome_sim(lhs, &outcomes[perm[i]]) {
            Some(s) => {
                if s > best {
                    best = s;
                    index = i - from;
                }
            },
            None => {},
        }
        i = i + 1;
    }
    proof {
        assert(cands.take(perm.len() - from) == cands);
    }
    index
}

/// Lines up the outcomes of an offer with those of an etalon offer: the result holds the
/// indices of `outcomes`, the one most similar to the first etalon outcome first, and so on
/// (greedily, among the outcomes not placed yet).
pub fn collate_outcomes(etalon: &Vec<Outcome>, outcomes: &Vec<Outcome>) -> (r: Vec<usize>)
    requires
        etalon.len() <= outcomes.len(),
    ensures
        r@.map_values(|x: usize| x as int) == collation(
            etalon@.map_values(|o: Outcome| o@),
            outcomes@.map_values(|o: Outcome| o@),
        ),
{
    let ghost ets = etalon@.map_values(|o: Outcome| o@);
    let ghost outs = outcomes@.map_values(|o: Outcome| o@);
    let mut perm: Vec<usize> = Vec::new();
    let mut j: usize = 0;
    while j < outcomes.len()
        invariant
            j <= outcomes.len(),
            perm@.len() == j,
            forall|k: int| 0 <= k < j ==> perm@[k] == k,
        decreases outcomes.len() - j,
    {
        perm.push(j);
        j = j + 1;
    }
    proof {
        assert(perm@.map_values(|x: usize| x as int) =~= collate_steps(ets, outs, 0));
    }
    let mut i: usize = 0;
    while i < etalon.len()
        invariant
            etalon.len() <= outcomes.len(),
            i <= etalon.len(),
            ets == etalon@.map_values(|o: Outcome| o@),
            outs == outcomes@.map_values(|o: Outcome| o@),
            perm@.len() == outcomes.len(),
            perm@.map_values(|x: usize| x as int) == collate_steps(ets, outs, i as nat),
        decreases etalon.len() - i,
    {
        let ghost p = perm@.map_values(|x: usize| x as int);
        proof {
            lemma_collate_steps(ets, outs, i as nat);
            assert forall|k: int| 0 <= k < perm.len() implies #[trigger] perm@[k] < outcomes.len() by {
                assert(p[k] == perm@[k] as int);
            }
        }
        let offset = most_similar_outcome(&etalon[i], outcomes, &perm, i);
        proof {
            let rest = p.skip(i as int).map_values(|j: int| outs[j]);
            assert(etalon@[i as int]@ == ets[i as int]);
            lemma_most_similar_index(ets[i as int], rest);
        }
        let index = i + offset;
        let a = perm[i];
        let b = perm[index];
        perm.set(i, b);
        perm.set(index, a);
        proof {
            assert(perm@.map_values(|x: usize| x as int) =~= swap_entries(p, i as int, index as int));
        }
        i = i + 1;
    }
    perm
}

} // verus!

verus! {

/// The titles of the outcomes that are not the draw, in order.
pub open spec fn non_draw_titles(os: Seq<OutcomeView>) -> Seq<Seq<char>>
    decreases os.len(),
{
    if os.len() == 0 {
        Seq::empty()
    } else if is_draw(os.last().0) {
        non_draw_titles(os.drop_last())
    } else {
        non_draw_titles(os.drop_last()).push(os.last().0)
    }
}

/// The best unreserved right title for a left title: its index and similarity. Later
/// titles win ties; titles whose similarity is not a number are passed over; the index
/// is 0 and the similarity 0 when nothing is picked.
pub open spec fn pick(lt: Seq<char>, rts: Seq<Seq<char>>, reserved: Seq<int>) -> (int, nat)
    decreases rts.len(),
{
    if rts.len() == 0 {
        (0, 0)
    } else {
        let (b, m) = pick(lt, rts.drop_last(), reserved);
        let k = rts.len() - 1;
        if reserved.contains(k) {
            (b, m)
        } else {
            match titles_similarity(lt, rts.last()) {
                Some(s) => if s >= m {
                    (k, s)
                } else {
                    (b, m)
                },
                None => (b, m),
            }
        }
    }
}

/// After matching the first `n` left titles, each against the right titles not reserved
/// by the earlier ones: the summed similarity and the reserved right indices.
pub open spec fn matching(lts: Seq<Seq<char>>, rts: Seq<Seq<char>>, n: nat) -> (nat, Seq<int>)
    decreases n,
{
    if n == 0 {
        (0, seq![3int, 3int, 3int])
    } else {
        let (score, reserved) = matching(lts, rts, (n - 1) as nat);
        let (b, m) = pick(lts[n - 1], rts, reserved);
        (score + m, reserved.update(n - 1, b))
    }
}

/// What a pick gives: a right title that is not reserved, with its similarity to the
/// left title, and no unreserved right title more similar; or nothing (index 0 and
/// similarity 0) when no unreserved right title has a similarity.
proof fn lemma_pick(lt: Seq<char>, rts: Seq<Seq<char>>, reserved: Seq<int>)
    ensures
        ({
            let (b, m) = pick(lt, rts, reserved);
            ||| (0 <= b < rts.len() && !reserved.contains(b) && titles_similarity(lt, rts[b]) == Some(m))
            ||| ((b, m) == (0int, 0nat) && forall|k: int| 0 <= k < rts.len() && !reserved.contains(k)
                    ==> #[trigger] titles_similarity(lt, rts[k]) is None)
        }),
        forall|k: int| 0 <= k < rts.len() && !reserved.contains(k) && #[trigger] titles_similarity(lt, rts[k]) is Some
            ==> titles_similarity(lt, rts[k])->0 <= pick(lt, rts, reserved).1,
    decreases rts.len(),
{
    if rts.len() > 0 {
        let p = rts.drop_last();
        lemma_pick(lt, p, reserved);
        let (b0, m0) = pick(lt, p, reserved);
        let last = rts.len() - 1;
        assert(rts.last() == rts[last]);
        assert forall|k: int| 0 <= k < p.len() implies #[trigger] p[k] == rts[k] by {}
        let (b, m) = pick(lt, rts, reserved);
        let prefix_picked = 0 <= b0 < p.len() && !reserved.contains(b0) && titles_similarity(lt, p[b0]) == Some(m0);
        if prefix_picked {
            assert(p[b0] == rts[b0]);
        } else {
            assert forall|k: int| 0 <= k < last && !reserved.contains(k)
                implies #[trigger] titles_similarity(lt, rts[k]) is None by {
                assert(p[k] == rts[k]);
            }
        }
        if reserved.contains(last) {
            assert((b, m) == (b0, m0));
            assert forall|k: int| 0 <= k < rts.len() && !reserved.contains(k) && #[trigger] titles_similarity(lt, rts[k]) is Some
                implies titles_similarity(lt, rts[k])->0 <= m by {
                assert(k < last);
                assert(p[k] == rts[k]);
            }
        } else {
            match titles_similarity(lt, rts.last()) {
                Some(sl) => {
                    if sl >= m0 {
                        assert((b, m) == (last, sl));
                    } else {
                        assert((b, m) == (b0, m0));
                    }
                    assert forall|k: int| 0 <= k < rts.len() && !reserved.contains(k) && #[trigger] titles_similarity(lt, rts[k]) is Some
                        implies titles_similarity(lt, rts[k])->0 <= m by {
                        if k < last {
                            assert(p[k] == rts[k]);
                        }
                    }
                },
                None => {
                    assert((b, m) == (b0, m0));
                    assert forall|k: int| 0 <= k < rts.len() && !reserved.contains(k)
                        implies #[trigger] titles_similarity(lt, rts[k]) is None || titles_similarity(lt, rts[k])->0 <= m by {
                        if k < last {
                            assert(p[k] == rts[k]);
                        }
                    }
                    if !prefix_picked {
                        assert forall|k: int| 0 <= k < rts.len() && !reserved.contains(k)
                            implies #[trigger] titles_similarity(lt, rts[k]) is None by {
                            if k < last {
                                assert(p[k] == rts[k]);
                            }
                        }
                    }
                },
            }
        }
    }
}

/// The similarity of the left titles to the right titles they are paired with: `p[i]` is
/// the right title paired with left title `i`, or negative for none.
pub open spec fn pairing_score(lts: Seq<Seq<char>>, rts: Seq<Seq<char>>, p: Seq<int>) -> nat
    decreases p.len(),
{
    if p.len() == 0 {
        0
    } else {
        let i = p.len() - 1;
        pairing_score(lts, rts, p.drop_last()) + if p[i] >= 0 {
            match titles_similarity(lts[i], rts[p[i]]) {
                Some(s) => s,
                None => 0,
            }
        } else {
            0
        }
    }
}

/// Whether `p` pairs left titles with right titles one to one: each left title with a
/// right title it has a similarity to, or with none, and no right title with two left
/// titles.
pub open spec fn one_to_one(lts: Seq<Seq<char>>, rts: Seq<Seq<char>>, p: Seq<int>) -> bool {
    &&& forall|i: int| 0 <= i < p.len() && #[trigger] p[i] >= 0 ==> p[i] < rts.len() && titles_similarity(lts[i], rts[p[i]]) is Some
    &&& forall|i: int, j: int| 0 <= i < p.len() && 0 <= j < p.len() && i != j && #[trigger] p[i] >= 0 ==> p[i] != #[trigger] p[j]
}

/// The matching of the first `n` left titles scores a one-to-one pairing of them with the
/// right titles: each right title is used for at most one left title, and the score is
/// the sum of the similarities of the pairs; the reserved right titles are the paired ones.
pub proof fn matching_pairs_titles_one_to_one(lts: Seq<Seq<char>>, rts: Seq<Seq<char>>, n: nat)
    requires
        n <= lts.len(),
        n <= 3,
    ensures
        exists|p: Seq<int>| {
            &&& p.len() == n
            &&& one_to_one(lts, rts, p)
            &&& #[trigger] pairing_score(lts, rts, p) == matching(lts, rts, n).0
            &&& forall|i: int| 0 <= i < n && p[i] >= 0 ==> matching(lts, rts, n).1[i] == p[i]
        },
{
    let p = lemma_matching_pairs(lts, rts, n);
    assert(pairing_score(lts, rts, p) == matching(lts, rts, n).0);
}

proof fn lemma_matching_pairs(lts: Seq<Seq<char>>, rts: Seq<Seq<char>>, n: nat) -> (p: Seq<int>)
    requires
        n <= lts.len(),
        n <= 3,
    ensures
        p.len() == n,
        one_to_one(lts, rts, p),
        pairing_score(lts, rts, p) == matching(lts, rts, n).0,
        matching(lts, rts, n).1.len() == 3,
        forall|i: int| 0 <= i < n && p[i] >= 0 ==> matching(lts, rts, n).1[i] == p[i],
        forall|i: int| n <= i < 3 ==> matching(lts, rts, n).1[i] == 3,
    decreases n,
{
    if n == 0 {
        Seq::empty()
    } else {
        let q = lemma_matching_pairs(lts, rts, (n - 1) as nat);
        let (score, reserved) = matching(lts, rts, (n - 1) as nat);
        let lt = lts[n - 1];
        lemma_pick(lt, rts, reserved);
        let (b, m) = pick(lt, rts, reserved);
        let picked = 0 <= b < rts.len() && !reserved.contains(b) && titles_similarity(lt, rts[b]) == Some(m);
        let p = q.push(if picked { b } else { -1 });
        assert(p.drop_last() =~= q);
        assert forall|i: int| 0 <= i < n - 1 && #[trigger] q[i] >= 0 implies reserved.contains(q[i]) by {
            assert(reserved[i] == q[i]);
        }
        assert forall|i: int, j: int| 0 <= i < p.len() && 0 <= j < p.len() && i != j && #[trigger] p[i] >= 0
            implies p[i] != #[trigger] p[j] by {
            if i < n - 1 && j < n - 1 {
                assert(p[i] == q[i] && p[j] == q[j]);
            } else if j == n - 1 {
                assert(p[i] == q[i]);
                assert(reserved.contains(q[i]));
            } else {
                assert(p[j] == q[j]);
                if q[j] >= 0 {
                    assert(reserved.contains(q[j]));
                }
            }
        }
        assert forall|i: int| 0 <= i < p.len() && #[trigger] p[i] >= 0 implies p[i] < rts.len()
            && titles_similarity(lts[i], rts[p[i]]) is Some by {
            if i < n - 1 {
                assert(p[i] == q[i]);
            }
        }
        assert(pairing_score(lts, rts, p) == pairing_score(lts, rts, q) + m);
        let res2 = reserved.update(n - 1, b);
        assert forall|i: int| 0 <= i < n && p[i] >= 0 implies res2[i] == p[i] by {
            if i < n - 1 {
                assert(p[i] == q[i]);
            }
        }
        p
    }
}

/// Whether two offers are about the same event: the same headline, and the titles of the
/// left offer (draws aside) match titles of the right one with a mean similarity of at
/// least 0.7.
pub open spec fn offers_match(left: OfferView, right: OfferView) -> bool {
    &&& headline(left) == headline(right)
    &&& {
        let lts = non_draw_titles(left.outcomes);
        let rts = non_draw_titles(right.outcomes);
        let score = matching(lts, rts, lts.len()).0;
        lts.len() > 0 && 10 * score >= 7 * lts.len() * SIM_ONE
    }
}

proof fn lemma_non_draw_len(os: Seq<OutcomeView>)
    ensures
        non_draw_titles(os).len() <= os.len(),
    decreases os.len(),
{
    if os.len() > 0 {
        lemma_non_draw_len(os.drop_last());
    }
}

/// The titles of the outcomes that are not the draw.
fn non_draw_titles_of(outcomes: &Vec<Outcome>) -> (ts: Vec<&String>)
    ensures
        ts@.map_values(|t: &String| t@) == non_draw_titles(outcomes@.map_values(|o: Outcome| o@)),
{
    let ghost os = outcomes@.map_values(|o: Outcome| o@);
    let mut ts: Vec<&String> = Vec::new();
    let mut i: usize = 0;
    while i < outcomes.len()
        invariant
            i <= outcomes.len(),
            os == outcomes@.map_values(|o: Outcome| o@),
            ts@.map_values(|t: &String| t@) == non_draw_titles(os.take(i as int)),
        decreases outcomes.len() - i,
    {
        proof {
            let t = os.take(i as int + 1);
            assert(t.drop_last() == os.take(i as int));
            assert(t.last() == outcomes@[i as int]@);
        }
        let title = &outcomes[i].0;
        if !crate::markets::title_is_draw(title.as_str()) {
            let ghost before = ts@.map_values(|t: &String| t@);
            ts.push(title);
            proof {
                assert(ts@.map_values(|t: &String| t@) =~= before.push(title@));
            }
        }
        i = i + 1;
    }
    proof {
        assert(os.take(outcomes.len() as int) == os);
    }
    ts
}

/// Whether `k` is among the reserved indices.
fn is_reserved(reserved: &Vec<usize>, k: usize) -> (r: bool)
    ensures
        r == reserved@.map_values(|x: usize| x as int).contains(k as int),
{
    let ghost rv = reserved@.map_values(|x: usize| x as int);
    let mut i: usize = 0;
    while i < reserved.len()
        invariant
            i <= reserved.len(),
            rv == reserved@.map_values(|x: usize| x as int),
            forall|j: int| 0 <= j < i ==> rv[j] != k,
        decreases reserved.len() - i,
    {
        if reserved[i] == k {
            proof {
                assert(rv[i as int] == k);
            }
            return true;
        }
        i = i + 1;
    }
    false
}

/// Decides whether two offers of different bookmakers are about the same event.
pub fn compare_offers(left: &Offer, right: &Offer) -> (r: bool)
    requires
        left.well_formed(),
        right.well_formed(),
    ensures
        r == offers_match(left@, right@),
{
    if get_headline(left) != get_headline(right) {
        return false;
    }
    let lts = non_draw_titles_of(&left.outcomes);
    let rts = non_draw_titles_of(&right.outcomes);
    let ghost lv = lts@.map_values(|t: &String| t@);
    let ghost rv = rts@.map_values(|t: &String| t@);
    proof {
        lemma_non_draw_len(left@.outcomes);
        lemma_non_draw_len(right@.outcomes);
    }
    let mut reserved: Vec<usize> = Vec::new();
    reserved.push(3);
    reserved.push(3);
    reserved.push(3);
    proof {
        assert(reserved@.map_values(|x: usize| x as int) =~= seq![3int, 3int, 3int]);
    }
    let mut score: u64 = 0;
    let mut i: usize = 0;
    while i < lts.len()
        invariant
            lts.len() <= 3,
            rts.len() <= 3,
            i <= lts.len(),
            lv == lts@.map_values(|t: &String| t@),
            rv == rts@.map_values(|t: &String| t@),
            reserved@.len() == 3,
            (score as nat, reserved@.map_values(|x: usize| x as int)) == matching(lv, rv, i as nat),
            score <= i * SIM_ONE,
        decreases lts.len() - i,
    {
        let ghost res = reserved@.map_values(|x: usize| x as int);
        let mut max_sim: u64 = 0;
        let mut best: usize = 0;
        let mut k: usize = 0;
        while k < rts.len()
            invariant
                i < lts.len(),
                k <= rts.len(),
                rts.len() <= 3,
                lv == lts@.map_values(|t: &String| t@),
                rv == rts@.map_values(|t: &String| t@),
                res == reserved@.map_values(|x: usize| x as int),
                (best as int, max_sim as nat) == pick(lv[i as int], rv.take(k as int), res),
                max_sim <= SIM_ONE,
                best < 3,
            decreases rts.len() - k,
        {
            proof {
                let t = rv.take(k as int + 1);
                assert(t.drop_last() == rv.take(k as int));
                assert(t.last() == rts@[k as int]@);
                assert(lv[i as int] == lts@[i as int]@);
            }
            if !is_reserved(&reserved, k) {
                match titles_sim(lts[i].as_str(), rts[k].as_str()) {
                    Some(sim) => {
                        if sim >= max_sim {
                            max_sim = sim;
                            best = k;
                        }
                    },
                    None => {},
                }
            }
            k = k + 1;
        }
        proof {
            assert(rv.take(rts.len() as int) == rv);
            assert((i + 1) * SIM_ONE == i * SIM_ONE + SIM_ONE) by (nonlinear_arith);
        }
        reserved.set(i, best);
        proof {
            assert(reserved@.map_values(|x: usize| x as int) =~= res.update(i as int, best as int));
        }
        score = score + max_sim;
        i = i + 1;
    }
    let n = lts.len() as u64;
    n > 0 && 10 * (score as u128) >= 7 * (n as u128) * (SIM_ONE as u128)
}

} // verus!
