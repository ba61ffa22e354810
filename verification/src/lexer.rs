//! The lexer: an ordered list of rules applied to the front of the text.

use crate::text::{
    byte_len, lemma_encode_concat, lemma_same_bytes_same_text, lemma_split_at_boundary, same, skip_char,
};
use regex::Regex;
use vstd::prelude::*;
use vstd::string::*;
use vstd::utf8::*;

verus! {

/// The category of a token.
#[derive(Debug, Clone, Copy, PartialEq, Eq, Structural)]
pub enum TokenKind {
    Number,
    Identifier,
    Plus,
    Minus,
    Star,
    Slash,
    StarStar,
    Percent,
    OpenParen,
    CloseParen,
    /// The sentinel past the last token; the lexer never produces it.
    EOF,
}

/// A recognized piece of the source text.
#[derive(Debug, Copy, Clone)]
pub struct Token<'a> {
    pub kind: TokenKind,
    pub slice: &'a str,
}

/// What a token is, apart from where its text lives.
pub struct TokenView {
    pub kind: TokenKind,
    pub text: Seq<char>,
}

impl<'a> View for Token<'a> {
    type V = TokenView;

    open spec fn view(&self) -> TokenView {
        TokenView { kind: self.kind, text: self.slice@ }
    }
}

/// The views of a sequence of tokens, in order.
pub open spec fn token_views<'a>(tokens: Seq<Token<'a>>) -> Seq<TokenView> {
    tokens.map_values(|token: Token<'a>| token@)
}

impl<'a> Token<'a> {
    pub fn new(kind: TokenKind, slice: &'a str) -> (token: Self)
        ensures
            token.kind == kind,
            token.slice == slice,
    {
        Self { kind, slice }
    }
}

/// `regex::Regex`, a compiled regular expression. Nothing inside it is
/// visible to the verifier.
#[verifier::external_type_specification]
#[verifier::external_body]
pub struct ExRegex(regex::Regex);

/// The regex that `pattern` compiles to, or `None` where it does not compile.
pub uninterp spec fn compiled(pattern: Seq<char>) -> Option<Regex>;

/// Compiles `pattern` with `Regex::new`; `None` where the pattern is refused.
///
/// Trusted: the outcome depends on the pattern alone, and is the named
/// `compiled`. Nothing is claimed about which patterns compile.
#[verifier::external_body]
pub(crate) fn compile(pattern: &str) -> (regex: Option<Regex>)
    ensures
        regex == compiled(pattern@),
{
    Regex::new(pattern).ok()
}

/// The first match of `regex` in `text`: the byte offset at which it starts
/// and the text it covers, or `None` where `regex` matches nowhere.
pub uninterp spec fn first_match(regex: Regex, text: Seq<char>) -> Option<(int, Seq<char>)>;

/// Searches `text` with `Regex::captures` and reads the whole match (group 0)
/// through `Captures::get`, `Match::start` and `Match::as_str`.
///
/// Trusted: the outcome depends on the regex and the text alone, and is the
/// named `first_match`; the matched text is the piece of `text` that begins
/// at the reported byte offset, and both ends of it fall on character
/// boundaries.
#[verifier::external_body]
fn search<'t>(regex: &Regex, text: &'t str) -> (found: Option<(usize, &'t str)>)
    ensures
        match found {
            Some((start, matched)) => {
                &&& first_match(*regex, text@) == Some((start as int, matched@))
                &&& start + matched.spec_bytes().len() <= text.spec_bytes().len()
                &&& matched.spec_bytes() == text.spec_bytes().subrange(
                    start as int,
                    start + matched.spec_bytes().len(),
                )
                &&& is_char_boundary(text.spec_bytes(), start as int)
                &&& is_char_boundary(text.spec_bytes(), start + matched.spec_bytes().len())
            },
            None => first_match(*regex, text@) is None,
        },
{
    match regex.captures(text) {
        Some(captures) => match captures.get(0) {
            Some(whole) => Some((whole.start(), whole.as_str())),
            None => None,
        },
        None => None,
    }
}

/// The text of a match, where the match starts at the very front of the text
/// that was searched.
pub fn match_at_front<'t>(found: Option<(usize, &'t str)>) -> (front: Option<&'t str>)
    ensures
        front == match found {
            Some((start, matched)) => if start == 0 {
                Some(matched)
            } else {
                None
            },
            None => None,
        },
{
    match found {
        Some((start, matched)) => {
            if start != 0 {
                return None;
            }
            Some(matched)
        },
        None => None,
    }
}

/// A token kind with the one way to recognize it: a pattern, or a keyword.
pub struct Rule<'a> {
    pub kind: TokenKind,
    pub regex: Option<Regex>,
    pub keyword: Option<&'a str>,
}

impl<'a> Rule<'a> {
    pub fn with_regex(kind: TokenKind, regex: Regex) -> (rule: Self)
        ensures
            rule == (Rule { kind, regex: Some(regex), keyword: None }),
    {
        Self { kind, regex: Some(regex), keyword: None }
    }

    pub fn with_keyword(kind: TokenKind, keyword: &'a str) -> (rule: Self)
        ensures
            rule == (Rule { kind, regex: None, keyword: Some(keyword) }),
    {
        Self { kind, regex: None, keyword: Some(keyword) }
    }

    /// The front of `text` that this rule recognizes, if any.
    ///
    /// A pattern recognizes its first match where that match starts at the
    /// very front of `text`; a keyword recognizes itself where `text` starts
    /// with it. A rule that holds a pattern never looks at its keyword.
    ///
    /// A match that starts at the front is a piece of the front. The
    /// definition says so itself, so that what is recognized is a prefix of
    /// `text` whatever is known of the pattern.
    pub open spec fn recognizes(self, text: Seq<char>) -> Option<Seq<char>> {
        match self.regex {
            Some(regex) => match first_match(regex, text) {
                Some((start, matched)) => if start == 0 && matched.is_prefix_of(text) {
                    Some(matched)
                } else {
                    None
                },
                None => None,
            },
            None => match self.keyword {
                Some(keyword) => if keyword@.is_prefix_of(text) {
                    Some(keyword@)
                } else {
                    None
                },
                None => None,
            },
        }
    }

    /// Applies this rule to the front of `text`.
    pub fn recognize<'t>(&self, text: &'t str) -> (found: Option<&'t str>)
        ensures
            match self.recognizes(text@) {
                Some(matched) => found is Some && found->Some_0@ == matched,
                None => found is None,
            },
    {
        broadcast use encode_utf8_valid_utf8, encode_utf8_decode_utf8;

        match &self.regex {
            Some(regex) => {
                let found = search(regex, text);
                proof {
                    if let Some((start, matched)) = found {
                        if start == 0 {
                            let bytes = text.spec_bytes();
                            let mid = matched.spec_bytes().len() as int;
                            decode_utf8_split(bytes, mid);
                            assert(decode_utf8(bytes) == text@);
                            assert(decode_utf8(matched.spec_bytes()) == matched@);
                            assert(matched@ =~= text@.subrange(0, matched@.len() as int));
                        }
                    }
                }
                match_at_front(found)
            },
            None => match self.keyword {
                Some(keyword) => {
                    let n = byte_len(keyword);
                    proof {
                        if keyword@.is_prefix_of(text@) {
                            let tail = text@.skip(keyword@.len() as int);
                            assert(text@ =~= keyword@ + tail);
                            lemma_encode_concat(keyword@, tail);
                        }
                    }
                    if byte_len(text) < n || !text.is_char_boundary(n) {
                        return None;
                    }
                    let (head, rest) = text.split_at(n);
                    if same(head, keyword) {
                        proof {
                            lemma_split_at_boundary(text@, head@, rest@, n as int);
                            assert(keyword@ =~= text@.subrange(0, keyword@.len() as int));
                        }
                        Some(head)
                    } else {
                        proof {
                            if keyword@.is_prefix_of(text@) {
                                assert(head.spec_bytes() =~= keyword.spec_bytes());
                                lemma_same_bytes_same_text(head@, keyword@);
                            }
                        }
                        None
                    }
                },
                None => None,
            },
        }
    }
}

/// The token at the front of `text`: that of the first rule, in list order,
/// that recognizes something there.
pub open spec fn first_token<'a>(rules: Seq<Rule<'a>>, text: Seq<char>) -> Option<TokenView>
    decreases rules.len(),
{
    if rules.len() == 0 {
        None
    } else {
        match rules[0].recognizes(text) {
            Some(matched) => Some(TokenView { kind: rules[0].kind, text: matched }),
            None => first_token(rules.drop_first(), text),
        }
    }
}

/// The tokens of `text` under `rules`.
///
/// At each position the first rule that recognizes something yields a token
/// and the position moves past it; where no rule does, one character is
/// dropped. The result is `None` where, at some position reached on the way,
/// the token is empty: the position could not move on.
pub open spec fn lex<'a>(rules: Seq<Rule<'a>>, text: Seq<char>) -> Option<Seq<TokenView>>
    decreases text.len(),
{
    if text.len() == 0 {
        Some(Seq::empty())
    } else {
        match first_token(rules, text) {
            Some(token) => if token.text.len() > 0 {
                proof {
                    lemma_first_token_is_prefix(rules, text);
                }
                match lex(rules, text.skip(token.text.len() as int)) {
                    Some(more) => Some(seq![token] + more),
                    None => None,
                }
            } else {
                None
            },
            None => lex(rules, text.drop_first()),
        }
    }
}

/// What the first token recognizes is a piece of the front of the text.
pub proof fn lemma_first_token_is_prefix<'a>(rules: Seq<Rule<'a>>, text: Seq<char>)
    ensures
        first_token(rules, text) matches Some(token) ==> token.text.is_prefix_of(text),
    decreases rules.len(),
{
    if rules.len() > 0 && rules[0].recognizes(text) is None {
        lemma_first_token_is_prefix(rules.drop_first(), text);
    }
}

/// Rules take priority in list order: the first token is that of rule `i`
/// where rule `i` recognizes something and no rule before it does.
pub proof fn lemma_earliest_rule_wins<'a>(rules: Seq<Rule<'a>>, text: Seq<char>, i: int)
    requires
        0 <= i < rules.len(),
        rules[i].recognizes(text) is Some,
        forall|j: int| 0 <= j < i ==> rules[j].recognizes(text) is None,
    ensures
        first_token(rules, text) == Some(
            TokenView { kind: rules[i].kind, text: rules[i].recognizes(text).unwrap() },
        ),
    decreases i,
{
    if i > 0 {
        let rest = rules.drop_first();
        assert(rules[0].recognizes(text) is None);
        assert forall|j: int| 0 <= j < i - 1 implies rest[j].recognizes(text) is None by {
            assert(rest[j] == rules[j + 1]);
        }
        lemma_earliest_rule_wins(rest, text, i - 1);
    }
}

/// Lexing goes through wherever no token is empty: where, at every position
/// of `text`, the first token, if there is one, holds at least one character.
pub proof fn lemma_lex_goes_through<'a>(rules: Seq<Rule<'a>>, text: Seq<char>)
    requires
        forall|k: int|
            0 <= k <= text.len() ==> (#[trigger] first_token(rules, text.skip(k)) matches Some(
                token,
            ) ==> token.text.len() > 0),
    ensures
        lex(rules, text) is Some,
    decreases text.len(),
{
    if text.len() > 0 {
        assert(text.skip(0) =~= text);
        lemma_first_token_is_prefix(rules, text);
        let n: int = match first_token(rules, text) {
            Some(token) => token.text.len() as int,
            None => 1,
        };
        let rest = text.skip(n);
        assert forall|k: int| 0 <= k <= rest.len() implies (#[trigger] first_token(
            rules,
            rest.skip(k),
        ) matches Some(token) ==> token.text.len() > 0) by {
            assert(rest.skip(k) =~= text.skip(n + k));
        }
        lemma_lex_goes_through(rules, rest);
        assert(text.drop_first() =~= text.skip(1));
    }
}

/// Whether `piece` stands in `text` at `k`.
pub open spec fn stands_at(piece: Seq<char>, text: Seq<char>, k: int) -> bool {
    0 <= k && k + piece.len() <= text.len() && text.subrange(k, k + piece.len()) == piece
}

/// Whether the texts of `tokens` stand in `text` one after another, in
/// order and without overlap.
pub open spec fn in_order(tokens: Seq<TokenView>, text: Seq<char>) -> bool
    decreases tokens.len(),
{
    tokens.len() == 0 || exists|k: int|
        #[trigger] stands_at(tokens[0].text, text, k) && in_order(
            tokens.drop_first(),
            text.skip(k + tokens[0].text.len()),
        )
}

/// Tokens that stand in order in the rest of a text stand in order in the
/// text.
proof fn lemma_in_order_shift(tokens: Seq<TokenView>, text: Seq<char>, n: int)
    requires
        0 <= n <= text.len(),
        in_order(tokens, text.skip(n)),
    ensures
        in_order(tokens, text),
{
    if tokens.len() > 0 {
        let piece = tokens[0].text;
        let k = choose|k: int|
            #[trigger] stands_at(piece, text.skip(n), k) && in_order(
                tokens.drop_first(),
                text.skip(n).skip(k + piece.len()),
            );
        assert(text.subrange(n + k, n + k + piece.len()) =~= text.skip(n).subrange(
            k,
            k + piece.len(),
        ));
        assert(text.skip(n + k + piece.len()) =~= text.skip(n).skip(k + piece.len()));
        assert(stands_at(piece, text, n + k));
    }
}

/// The tokens of a text are pieces of it, in order and without overlap.
pub proof fn lemma_tokens_stand_in_order<'a>(rules: Seq<Rule<'a>>, text: Seq<char>)
    ensures
        lex(rules, text) matches Some(tokens) ==> in_order(tokens, text),
    decreases text.len(),
{
    if text.len() > 0 {
        match first_token(rules, text) {
            Some(token) => {
                if token.text.len() > 0 {
                    lemma_first_token_is_prefix(rules, text);
                    let n = token.text.len() as int;
                    lemma_tokens_stand_in_order(rules, text.skip(n));
                    if let Some(more) = lex(rules, text.skip(n)) {
                        let tokens = seq![token] + more;
                        assert(tokens.drop_first() =~= more);
                        assert(tokens[0] == token);
                        assert(text.skip(0 + n) == text.skip(n));
                        assert(stands_at(token.text, text, 0));
                    }
                }
            },
            None => {
                lemma_tokens_stand_in_order(rules, text.drop_first());
                assert(text.drop_first() =~= text.skip(1));
                if let Some(tokens) = lex(rules, text) {
                    lemma_in_order_shift(tokens, text, 1);
                }
            },
        }
    }
}

/// A character that no rule recognizes leaves no token behind.
pub proof fn lemma_unrecognized_character_is_skipped<'a>(rules: Seq<Rule<'a>>, text: Seq<char>)
    requires
        text.len() > 0,
        first_token(rules, text) is None,
    ensures
        lex(rules, text) == lex(rules, text.drop_first()),
{
}

/// An ordered list of rules; earlier rules take priority.
pub struct Lexer<'a> {
    rules: Vec<Rule<'a>>,
}

impl<'a> View for Lexer<'a> {
    type V = Seq<Rule<'a>>;

    closed spec fn view(&self) -> Seq<Rule<'a>> {
        self.rules@
    }
}

impl<'a> Lexer<'a> {
    pub fn new(rules: Vec<Rule<'a>>) -> (lexer: Self)
        ensures
            lexer@ == rules@,
    {
        Self { rules }
    }

    /// The token at the front of `slice`, if any rule recognizes one.
    pub fn token<'b>(&self, slice: &'b str) -> (found: Option<Token<'b>>)
        ensures
            match first_token(self@, slice@) {
                Some(token) => found is Some && found->Some_0@ == token,
                None => found is None,
            },
    {
        let mut i: usize = 0;
        proof {
            assert(self.rules@.skip(0) =~= self.rules@);
        }
        while i < self.rules.len()
            invariant
                i <= self.rules.len(),
                first_token(self.rules@, slice@) == first_token(self.rules@.skip(i as int), slice@),
            decreases self.rules.len() - i,
        {
            let rule = &self.rules[i];
            proof {
                assert(self.rules@.skip(i as int).drop_first() =~= self.rules@.skip(i + 1));
            }
            match rule.recognize(slice) {
                Some(matched) => {
                    return Some(Token::new(rule.kind, matched));
                },
                None => {},
            }
            i += 1;
        }
        None
    }

    /// The tokens of `source`, or `None` where a rule recognizes the empty
    /// text at a position reached on the way.
    pub fn try_parse<'b>(&self, source: &'b str) -> (tokens: Option<Vec<Token<'b>>>)
        ensures
            match lex(self@, source@) {
                Some(views) => tokens is Some && token_views(tokens->Some_0@) == views,
                None => tokens is None,
            },
    {
        let mut tokens: Vec<Token<'b>> = Vec::new();
        let mut rest: &'b str = source;
        while !rest.is_empty()
            invariant
                lex(self@, source@) == match lex(self@, rest@) {
                    Some(more) => Some(token_views(tokens@) + more),
                    None => None,
                },
            decreases rest@.len(),
        {
            match self.token(rest) {
                Some(token) => {
                    if token.slice.is_empty() {
                        return None;
                    }
                    let n = byte_len(token.slice);
                    let ghost tail = rest@.skip(token.slice@.len() as int);
                    proof {
                        lemma_first_token_is_prefix(self@, rest@);
                        assert(rest@ =~= token.slice@ + tail);
                        lemma_encode_concat(token.slice@, tail);
                    }
                    let (head, after) = rest.split_at(n);
                    proof {
                        lemma_split_at_boundary(rest@, head@, after@, n as int);
                        assert(head.spec_bytes() =~= token.slice.spec_bytes());
                        lemma_same_bytes_same_text(head@, token.slice@);
                        assert(after@ =~= tail);
                        let ghost before = token_views(tokens@);
                        assert(token_views(tokens@.push(token)) =~= before.push(token@));
                        assert forall|more: Seq<TokenView>|
                            before + (seq![token@] + more) == before.push(token@) + more by {
                            assert(before + (seq![token@] + more) =~= before.push(token@) + more);
                        }
                    }
                    tokens.push(token);
                    rest = after;
                },
                None => {
                    rest = skip_char(rest);
                },
            }
        }
        proof {
            assert(token_views(tokens@) + Seq::<TokenView>::empty() =~= token_views(tokens@));
        }
        Some(tokens)
    }

    /// The tokens of `source`.
    pub fn parse<'b>(&self, source: &'b str) -> (tokens: Vec<Token<'b>>)
        requires
            lex(self@, source@) is Some,
        ensures
            Some(token_views(tokens@)) == lex(self@, source@),
    {
        match self.try_parse(source) {
            Some(tokens) => tokens,
            None => Vec::new(),
        }
    }
}

} // verus!
