use crate::pattern::{compile, compiled, describe, find_at, found_at, Pattern};
use crate::text::{byte_len, is_snippet_end, lexeme, slice, snippet_end};
use std::fmt::Debug;
use vstd::prelude::*;
use vstd::string::StringSliceAdditionalSpecFns;
use vstd::utf8::{encode_utf8, is_char_boundary};

verus! {

/// What a tokenizer hands out. The library asks nothing of a token but that
/// it can be copied and shown.
pub trait Token: Clone + Debug {

}

/// The pattern of a rule is not one that the `regex` crate compiles.
#[derive(Debug, PartialEq, Eq)]
pub struct PatternError {
    /// What the `regex` crate says of the pattern.
    pub message: String,
}

/// No rule matches at `offset`.
#[derive(Debug, PartialEq, Eq)]
pub struct LexicalError {
    /// The byte offset in the source at which no rule matches.
    pub offset: usize,
    /// The source from `offset` on, cut off after `SNIPPET_LIMIT` bytes at
    /// the latest and never inside a character.
    pub snippet: String,
}

/// What becomes of the text that a rule has matched.
#[verifier::reject_recursive_types(T)]
pub enum TokenParseRule<T: Token, F: Fn(&str) -> T> {
    /// The text is passed over and no token comes of it.
    Ignore,
    /// The same token, whatever the text.
    Constant(T),
    /// The token that the function makes of the text.
    Derive(F),
}

impl<T: Token, F: Fn(&str) -> T + Clone> Clone for TokenParseRule<T, F> {
    /// The same kind of rule, with a copy of the constant or of the function.
    fn clone(&self) -> (copy: Self)
        ensures
            match (*self, copy) {
                (TokenParseRule::Ignore, TokenParseRule::Ignore) => true,
                (TokenParseRule::Constant(t), TokenParseRule::Constant(u)) => cloned(t, u),
                (TokenParseRule::Derive(f), TokenParseRule::Derive(g)) => cloned(f, g),
                _ => false,
            },
    {
        match self {
            TokenParseRule::Ignore => TokenParseRule::Ignore,
            TokenParseRule::Constant(t) => TokenParseRule::Constant(t.clone()),
            TokenParseRule::Derive(f) => TokenParseRule::Derive(f.clone()),
        }
    }
}

/// A pattern and what to make of the text it matches.
#[verifier::reject_recursive_types(T)]
pub struct TokenRule<T: Token, F: Fn(&str) -> T> {
    pattern: Pattern,
    parse_rule: TokenParseRule<T, F>,
}

impl<T: Token, F: Fn(&str) -> T + Clone> Clone for TokenRule<T, F> {
    /// A rule with the same compiled pattern and a copy of what to make of a
    /// match.
    fn clone(&self) -> (copy: Self)
        ensures
            copy.pattern() == self.pattern(),
            match (self.action(), copy.action()) {
                (TokenParseRule::Ignore, TokenParseRule::Ignore) => true,
                (TokenParseRule::Constant(t), TokenParseRule::Constant(u)) => cloned(t, u),
                (TokenParseRule::Derive(f), TokenParseRule::Derive(g)) => cloned(f, g),
                _ => false,
            },
    {
        TokenRule { pattern: self.pattern.clone(), parse_rule: self.parse_rule.clone() }
    }
}

impl<T: Token, F: Fn(&str) -> T> TokenRule<T, F> {
    /// The compiled pattern of the rule.
    pub closed spec fn pattern(&self) -> Pattern {
        self.pattern
    }

    /// What the rule makes of a match.
    pub closed spec fn action(&self) -> TokenParseRule<T, F> {
        self.parse_rule
    }

    /// Whether the function of a `Derive` rule may be called on every text.
    pub open spec fn usable(&self) -> bool {
        self.action() is Derive ==> forall|text: &str| #[trigger]
            call_requires(self.action()->Derive_0, (text,))
    }

    /// The rule with the compiled `pattern` and with `parse_rule`; an error
    /// where the pattern does not compile.
    pub fn new(pattern: &str, parse_rule: TokenParseRule<T, F>) -> (r: Result<Self, PatternError>)
        ensures
            match r {
                Ok(rule) => compiled(pattern@) == Some(rule.pattern()) && rule.action()
                    == parse_rule,
                Err(_) => compiled(pattern@) is None,
            },
    {
        match compile(pattern) {
            Ok(pattern) => Ok(TokenRule { pattern, parse_rule }),
            Err(error) => Err(PatternError { message: describe(&error) }),
        }
    }
}

/// Where the match of a rule ends, given what the search from `cursor` has
/// found: a match counts when it begins at `cursor` and is not empty.
pub open spec fn anchored(found: Option<(usize, usize)>, cursor: usize) -> Option<usize> {
    match found {
        Some((from, to)) => if from == cursor && to > cursor {
            Some(to)
        } else {
            None
        },
        None => None,
    }
}

/// Whether rule `i` wins at `cursor`: it matches there, no rule matches
/// further, and no earlier rule matches as far.
pub open spec fn wins(found: Seq<Option<(usize, usize)>>, cursor: usize, i: int) -> bool {
    &&& 0 <= i < found.len()
    &&& anchored(found[i], cursor) is Some
    &&& forall|j: int|
        0 <= j < found.len() && (#[trigger] anchored(found[j], cursor)) is Some ==> {
            let other = anchored(found[j], cursor).unwrap();
            let mine = anchored(found[i], cursor).unwrap();
            other < mine || (other == mine && i <= j)
        }
}

/// The rule that wins at `cursor` and where its match ends; `None` where no
/// rule matches there.
pub open spec fn longest(found: Seq<Option<(usize, usize)>>, cursor: usize) -> Option<
    (int, usize),
> {
    if exists|i: int| wins(found, cursor, i) {
        let i = choose|i: int| wins(found, cursor, i);
        Some((i, anchored(found[i], cursor).unwrap()))
    } else {
        None
    }
}

/// At most one rule wins.
pub proof fn lemma_one_winner(found: Seq<Option<(usize, usize)>>, cursor: usize, i: int, j: int)
    requires
        wins(found, cursor, i),
        wins(found, cursor, j),
    ensures
        i == j,
{
}

/// Of two rules that match equally far, the one declared later does not win,
/// however many rules there are.
pub proof fn lemma_earlier_rule_wins(
    found: Seq<Option<(usize, usize)>>,
    cursor: usize,
    earlier: int,
    later: int,
)
    requires
        0 <= earlier < later < found.len(),
        anchored(found[earlier], cursor) is Some,
        anchored(found[earlier], cursor) == anchored(found[later], cursor),
    ensures
        !wins(found, cursor, later),
        longest(found, cursor) matches Some((winner, _)) && winner != later,
{
    lemma_some_rule_wins(found, cursor, earlier);
}

/// A rule does not win where another matches further, whichever of the two
/// was declared first.
pub proof fn lemma_longer_match_wins(
    found: Seq<Option<(usize, usize)>>,
    cursor: usize,
    shorter: int,
    longer: int,
)
    requires
        0 <= shorter < found.len(),
        0 <= longer < found.len(),
        anchored(found[shorter], cursor) is Some,
        anchored(found[longer], cursor) is Some,
        anchored(found[shorter], cursor).unwrap() < anchored(found[longer], cursor).unwrap(),
    ensures
        !wins(found, cursor, shorter),
        longest(found, cursor) matches Some((winner, end)) && winner != shorter && end
            >= anchored(found[longer], cursor).unwrap(),
{
    lemma_some_rule_wins(found, cursor, longer);
}

/// Where some rule matches, one rule wins.
pub proof fn lemma_some_rule_wins(found: Seq<Option<(usize, usize)>>, cursor: usize, i: int)
    requires
        0 <= i < found.len(),
        anchored(found[i], cursor) is Some,
    ensures
        exists|w: int| wins(found, cursor, w),
    decreases found.len(),
{
    let shorter = found.drop_last();
    let last = found.len() - 1;
    if exists|j: int| 0 <= j < last && anchored(shorter[j], cursor) is Some {
        let j = choose|j: int| 0 <= j < last && anchored(shorter[j], cursor) is Some;
        lemma_some_rule_wins(shorter, cursor, j);
        let w = choose|w: int| wins(shorter, cursor, w);
        let best = anchored(shorter[w], cursor).unwrap();
        if anchored(found[last], cursor) is Some && anchored(found[last], cursor).unwrap() > best {
            assert forall|k: int|
                0 <= k < found.len() && (#[trigger] anchored(found[k], cursor)) is Some implies {
                let other = anchored(found[k], cursor).unwrap();
                let mine = anchored(found[last], cursor).unwrap();
                other < mine || (other == mine && last <= k)
            } by {
                if k < last {
                    assert(anchored(shorter[k], cursor) is Some);
                }
            }
            assert(wins(found, cursor, last));
        } else {
            assert forall|k: int|
                0 <= k < found.len() && (#[trigger] anchored(found[k], cursor)) is Some implies {
                let other = anchored(found[k], cursor).unwrap();
                other < best || (other == best && w <= k)
            } by {
                if k < last {
                    assert(anchored(shorter[k], cursor) is Some);
                }
            }
            assert(wins(found, cursor, w));
        }
    } else {
        assert forall|k: int|
            0 <= k < found.len() && (#[trigger] anchored(found[k], cursor)) is Some implies k
            == last by {
            if k < last {
                assert(anchored(shorter[k], cursor) is Some);
            }
        }
        assert(wins(found, cursor, last));
    }
}

/// Picks the rule that wins at `cursor` from what the search of each rule
/// has found, in the order in which the rules were declared: the longest
/// match that begins at `cursor`, and among equally long ones the first.
pub fn longest_match(found: &Vec<Option<(usize, usize)>>, cursor: usize) -> (r: Option<
    (usize, usize),
>)
    ensures
        match r {
            Some((i, end)) => {
                &&& longest(found@, cursor) == Some((i as int, end))
                &&& wins(found@, cursor, i as int)
                &&& anchored(found@[i as int], cursor) == Some(end)
            },
            None => {
                &&& longest(found@, cursor) is None
                &&& forall|j: int|
                    0 <= j < found.len() ==> anchored(#[trigger] found@[j], cursor) is None
            },
        },
{
    let mut best: Option<(usize, usize)> = None;
    let mut i: usize = 0;
    while i < found.len()
        invariant
            i <= found.len(),
            match best {
                Some((b, end)) => wins(found@.take(i as int), cursor, b as int) && anchored(
                    found@[b as int],
                    cursor,
                ) == Some(end),
                None => forall|j: int|
                    0 <= j < i ==> anchored(#[trigger] found@[j], cursor) is None,
            },
        decreases found.len() - i,
    {
        let ghost seen = found@.take(i as int);
        let ghost more = found@.take(i + 1);
        let candidate = match found[i] {
            Some((from, to)) => if from == cursor && to > cursor {
                Some(to)
            } else {
                None
            },
            None => None,
        };
        assert forall|j: int| 0 <= j < i implies more[j] == seen[j] by {}
        if let Some(to) = candidate {
            let further = match best {
                Some((_, end)) => to > end,
                None => true,
            };
            if further {
                best = Some((i, to));
            }
        }
        i += 1;
    }
    assert(found@.take(i as int) =~= found@);
    best
}

/// What the search of each rule finds from `cursor` on, in the order of the
/// rules.
pub open spec fn searches<T: Token, F: Fn(&str) -> T>(
    rules: Seq<TokenRule<T, F>>,
    source: Seq<char>,
    cursor: usize,
) -> Seq<Option<(usize, usize)>> {
    Seq::new(rules.len(), |i: int| found_at(rules[i].pattern(), source, cursor as int))
}

/// The offset at which the next token or error is decided when the scan
/// stands at `cursor`: as long as the rule that wins passes its text over,
/// the scan moves on to the end of the match.
pub open spec fn settle<T: Token, F: Fn(&str) -> T>(
    rules: Seq<TokenRule<T, F>>,
    source: Seq<char>,
    cursor: usize,
) -> usize
    decreases encode_utf8(source).len() - cursor,
{
    if cursor >= encode_utf8(source).len() {
        cursor
    } else {
        match longest(searches(rules, source, cursor), cursor) {
            Some((i, end)) => if rules[i].action() is Ignore && cursor < end
                <= encode_utf8(source).len() {
                settle(rules, source, end)
            } else {
                cursor
            },
            None => cursor,
        }
    }
}

/// Whether `token` is what `action` makes of `text`: a copy of the constant,
/// or what the function returns for the text.
pub open spec fn produced<T: Token, F: Fn(&str) -> T>(
    action: TokenParseRule<T, F>,
    text: Seq<char>,
    token: T,
) -> bool {
    match action {
        TokenParseRule::Ignore => false,
        TokenParseRule::Constant(constant) => cloned(constant, token),
        TokenParseRule::Derive(f) => exists|part: &str|
            part@ == text && #[trigger] call_ensures(f, (part,), token),
    }
}

/// A scan over a source text that hands out one token at a time.
///
/// At each step every rule is tried at the place where the scan stands. The
/// rule with the longest match wins, and among rules that match equally far
/// the one declared first. A match of no length moves the scan nowhere and
/// does not count. Where no rule matches, the step ends in an error and the
/// scan hands out nothing more.
#[verifier::reject_recursive_types(T)]
pub struct Tokenizer<'a, T: Token, F: Fn(&str) -> T> {
    rules: Vec<TokenRule<T, F>>,
    token_start: usize,
    source: &'a str,
    failed: bool,
}

impl<'a, T: Token, F: Fn(&str) -> T> Tokenizer<'a, T, F> {
    /// The rules in the order in which they were declared.
    pub closed spec fn rules(&self) -> Seq<TokenRule<T, F>> {
        self.rules@
    }

    /// The text that is scanned.
    pub closed spec fn source(&self) -> &'a str {
        self.source
    }

    /// The byte offset at which the scan stands.
    pub closed spec fn spec_offset(&self) -> usize {
        self.token_start
    }

    /// Whether the scan has ended in an error.
    pub closed spec fn spec_failed(&self) -> bool {
        self.failed
    }

    /// The scan stands within the source and between two characters, and the
    /// function of every `Derive` rule may be called.
    pub closed spec fn wf(&self) -> bool {
        &&& self.token_start <= self.source.spec_bytes().len()
        &&& is_char_boundary(self.source.spec_bytes(), self.token_start as int)
        &&& forall|i: int| 0 <= i < self.rules@.len() ==> (#[trigger] self.rules@[i]).usable()
    }

    /// A scan of `source` under `rules` that stands at the beginning. Rules
    /// that come first in `rules` win over later ones that match as far.
    pub fn new(rules: Vec<TokenRule<T, F>>, source: &'a str) -> (r: Self)
        requires
            forall|i: int| 0 <= i < rules@.len() ==> (#[trigger] rules@[i]).usable(),
        ensures
            r.wf(),
            r.rules() == rules@,
            r.source() == source,
            r.offset() == 0,
            !r.failed(),
    {
        proof {
            vstd::utf8::encode_utf8_valid_utf8(source@);
        }
        Tokenizer { rules, token_start: 0, source, failed: false }
    }

    /// The byte offset at which the scan stands.
    #[verifier::when_used_as_spec(spec_offset)]
    pub fn offset(&self) -> (at: usize)
        ensures
            at == self.offset(),
    {
        self.token_start
    }

    /// Whether the scan has ended in an error.
    #[verifier::when_used_as_spec(spec_failed)]
    pub fn failed(&self) -> (b: bool)
        ensures
            b == self.failed(),
    {
        self.failed
    }

    /// What the search of each rule finds from where the scan stands.
    fn search_all(&self) -> (found: Vec<Option<(usize, usize)>>)
        requires
            self.wf(),
        ensures
            found@ == searches(self.rules(), self.source()@, self.offset()),
            forall|i: int|
                0 <= i < found@.len() ==> (#[trigger] found@[i] matches Some((from, to)) ==> {
                    &&& to <= self.source().spec_bytes().len()
                    &&& is_char_boundary(self.source().spec_bytes(), to as int)
                }),
    {
        let mut found: Vec<Option<(usize, usize)>> = Vec::new();
        let mut i: usize = 0;
        while i < self.rules.len()
            invariant
                i <= self.rules.len(),
                self.wf(),
                found@.len() == i,
                forall|j: int|
                    0 <= j < i ==> #[trigger] found@[j] == found_at(
                        self.rules@[j].pattern(),
                        self.source@,
                        self.token_start as int,
                    ),
                forall|j: int|
                    0 <= j < i ==> (#[trigger] found@[j] matches Some((from, to)) ==> {
                        &&& to <= self.source.spec_bytes().len()
                        &&& is_char_boundary(self.source.spec_bytes(), to as int)
                    }),
            decreases self.rules.len() - i,
        {
            let hit = find_at(&self.rules[i].pattern, self.source, self.token_start);
            found.push(hit);
            i += 1;
        }
        found
    }

    /// The next token, an error, or `None` at the end.
    ///
    /// Matches of `Ignore` rules are passed over first. Then, at the end of
    /// the source, the answer is `None`. Where no rule matches, the answer is
    /// the error with the offset and a snippet of the source from there on,
    /// and from then on every answer is `None`. Else the scan moves to the
    /// end of the longest match and the answer is the token of the rule that
    /// wins: a copy of its constant, or what its function makes of the text
    /// matched.
    pub fn next(&mut self) -> (r: Option<Result<T, LexicalError>>)
        requires
            old(self).wf(),
        ensures
            final(self).wf(),
            final(self).rules() == old(self).rules(),
            final(self).source() == old(self).source(),
            old(self).offset() <= final(self).offset() <= old(self).source().spec_bytes().len(),
            is_char_boundary(old(self).source().spec_bytes(), final(self).offset() as int),
            r matches Some(Ok(_)) ==> old(self).offset() < final(self).offset(),
            old(self).failed() ==> {
                &&& r is None
                &&& final(self).failed()
                &&& final(self).offset() == old(self).offset()
            },
            !old(self).failed() ==> {
                let rules = old(self).rules();
                let source = old(self).source();
                let at = settle(rules, source@, old(self).offset());
                if at >= source.spec_bytes().len() {
                    &&& r is None
                    &&& final(self).offset() == at
                    &&& !final(self).failed()
                } else {
                    match longest(searches(rules, source@, at), at) {
                        None => {
                            &&& final(self).failed()
                            &&& final(self).offset() == at
                            &&& r matches Some(Err(error))
                            &&& error.offset == at
                            &&& exists|end: int|
                                is_snippet_end(source.spec_bytes(), at as int, end)
                                    && error.snippet@ == lexeme(source@, at as int, end)
                        },
                        Some((i, end)) => {
                            &&& !final(self).failed()
                            &&& final(self).offset() == end
                            &&& r matches Some(Ok(token))
                            &&& produced(
                                rules[i].action(),
                                lexeme(source@, at as int, end as int),
                                token,
                            )
                        },
                    }
                }
            },
    {
        if self.failed {
            return None;
        }
        let ghost goal = settle(self.rules(), self.source()@, self.offset());
        let len = byte_len(self.source);
        while self.token_start < len
            invariant
                self.wf(),
                !self.failed,
                !old(self).failed,
                old(self).token_start <= self.token_start,
                self.rules == old(self).rules,
                self.source == old(self).source,
                len == self.source.spec_bytes().len(),
                goal == settle(old(self).rules(), old(self).source()@, old(self).offset()),
                settle(self.rules(), self.source()@, self.offset()) == goal,
            decreases len - self.token_start,
        {
            let found = self.search_all();
            let start = self.token_start;
            match longest_match(&found, start) {
                None => {
                    let end = snippet_end(self.source, start);
                    let snippet = slice(self.source, start, end).to_owned();
                    self.failed = true;
                    return Some(Err(LexicalError { offset: start, snippet }));
                },
                Some((i, end)) => {
                    match &self.rules[i].parse_rule {
                        TokenParseRule::Ignore => {
                            self.token_start = end;
                        },
                        TokenParseRule::Constant(constant) => {
                            let token = constant.clone();
                            self.token_start = end;
                            return Some(Ok(token));
                        },
                        TokenParseRule::Derive(f) => {
                            let text = slice(self.source, start, end);
                            let token = f(text);
                            self.token_start = end;
                            return Some(Ok(token));
                        },
                    }
                },
            }
        }
        None
    }
}

} // verus!
