//! A toy regular-expression matcher: literals, `.`, the postfix
//! operators `*`, `+`, `?`, and the anchors `^` and `$`, matched by
//! backtracking.  Parsing and matching are both specified as
//! recursive functions over character sequences and proved exact.

use vstd::prelude::*;

verus! {

use vstd::string::StrSliceExecFns;

/// One element of a parsed pattern.
#[derive(Debug)]
pub enum Token {
    Literal(char),
    Dot,
    Star(Box<Token>),
    Plus(Box<Token>),
    Question(Box<Token>),
    StartAnchor,
    EndAnchor,
}

/// Whether a single (non-operator) token accepts the character `c`.
pub open spec fn spec_match_token(t: Token, c: char) -> bool {
    match t {
        Token::Literal(ch) => ch == c,
        Token::Dot => true,
        _ => false,
    }
}

/// Whether `tokens` matches `text` starting exactly at `pos`.  A star
/// matches greedily by trying the empty repetition first and then one
/// more element; a plus consumes exactly one element here, further
/// repetitions being the caller's unanchored scan to try; a question
/// mark tries one element, then none.  An empty token list matches at
/// any position, even one beyond the text.
pub open spec fn spec_match_here(tokens: Seq<Token>, text: Seq<char>, pos: int) -> bool
    decreases vstd::math::max(text.len() - pos, 0), tokens.len(),
{
    if tokens.len() == 0 {
        true
    } else if tokens[0] is EndAnchor {
        tokens.len() == 1 && pos == text.len()
    } else {
        match tokens[0] {
            Token::Star(inner) => spec_match_here(tokens.drop_first(), text, pos) || (pos
                < text.len() && spec_match_token(*inner, text[pos]) && spec_match_here(
                tokens,
                text,
                pos + 1,
            )),
            Token::Plus(inner) => pos < text.len() && spec_match_token(*inner, text[pos])
                && spec_match_here(tokens.drop_first(), text, pos + 1),
            Token::Question(inner) => (pos < text.len() && spec_match_token(*inner, text[pos])
                && spec_match_here(tokens.drop_first(), text, pos + 1)) || spec_match_here(
                tokens.drop_first(),
                text,
                pos,
            ),
            t => pos < text.len() && spec_match_token(t, text[pos]) && spec_match_here(
                tokens.drop_first(),
                text,
                pos + 1,
            ),
        }
    }
}

/// The token list a pattern parses to: operator characters wrap the
/// previous token, or stand for themselves when there is none.
pub open spec fn spec_parse(chars: Seq<char>) -> Seq<Token>
    decreases chars.len(),
{
    if chars.len() == 0 {
        Seq::empty()
    } else {
        let rest = spec_parse(chars.drop_last());
        let c = chars.last();
        if c == '.' {
            rest.push(Token::Dot)
        } else if c == '^' {
            rest.push(Token::StartAnchor)
        } else if c == '$' {
            rest.push(Token::EndAnchor)
        } else if c == '*' && rest.len() > 0 {
            rest.drop_last().push(Token::Star(Box::new(rest.last())))
        } else if c == '+' && rest.len() > 0 {
            rest.drop_last().push(Token::Plus(Box::new(rest.last())))
        } else if c == '?' && rest.len() > 0 {
            rest.drop_last().push(Token::Question(Box::new(rest.last())))
        } else {
            rest.push(Token::Literal(c))
        }
    }
}

/// Whether the pattern matches the text: at the start only when the
/// pattern is anchored there, anywhere otherwise.
pub open spec fn spec_regex_match(pattern: Seq<char>, text: Seq<char>) -> bool {
    let tokens = spec_parse(pattern);
    if tokens.len() > 0 && tokens[0] is StartAnchor {
        spec_match_here(tokens.drop_first(), text, 0)
    } else {
        exists|s: int| 0 <= s <= text.len() && spec_match_here(tokens, text, s)
    }
}

/// Parses a pattern into its token list.
pub fn parse_pattern(pattern: &str) -> (tokens: Vec<Token>)
    ensures
        tokens@ == spec_parse(pattern@),
{
    let n = pattern.unicode_len();
    let mut tokens: Vec<Token> = Vec::new();
    let mut i: usize = 0;

    while i < n
        invariant
            i <= n,
            n == pattern@.len(),
            tokens@ == spec_parse(pattern@.take(i as int)),
        decreases n - i,
    {
        proof {
            assert(pattern@.take(i as int + 1).drop_last() =~= pattern@.take(i as int));
            assert(pattern@.take(i as int + 1).last() == pattern@[i as int]);
        }
        let c = pattern.get_char(i);
        if c == '.' {
            tokens.push(Token::Dot);
        } else if c == '^' {
            tokens.push(Token::StartAnchor);
        } else if c == '$' {
            tokens.push(Token::EndAnchor);
        } else if c == '*' && tokens.len() > 0 {
            let ghost before = tokens@;
            let prev = match tokens.pop() {
                Some(t) => t,
                None => {
                    return tokens;
                },
            };
            proof {
                assert(before.drop_last() =~= tokens@);
            }
            tokens.push(Token::Star(Box::new(prev)));
        } else if c == '+' && tokens.len() > 0 {
            let ghost before = tokens@;
            let prev = match tokens.pop() {
                Some(t) => t,
                None => {
                    return tokens;
                },
            };
            proof {
                assert(before.drop_last() =~= tokens@);
            }
            tokens.push(Token::Plus(Box::new(prev)));
        } else if c == '?' && tokens.len() > 0 {
            let ghost before = tokens@;
            let prev = match tokens.pop() {
                Some(t) => t,
                None => {
                    return tokens;
                },
            };
            proof {
                assert(before.drop_last() =~= tokens@);
            }
            tokens.push(Token::Question(Box::new(prev)));
        } else {
            tokens.push(Token::Literal(c));
        }
        i += 1;
    }

    proof {
        assert(pattern@.take(n as int) =~= pattern@);
    }

    tokens
}

/// Whether a single token accepts the character `c`.
pub fn match_token(token: &Token, c: char) -> (r: bool)
    ensures
        r == spec_match_token(*token, c),
{
    match token {
        Token::Literal(ch) => *ch == c,
        Token::Dot => true,
        _ => false,
    }
}

/// Backtracking matcher over the token list from index `ti` on.
fn match_from(tokens: &[Token], ti: usize, text: &[char], pos: usize) -> (r: bool)
    requires
        ti <= tokens@.len(),
    ensures
        r == spec_match_here(tokens@.skip(ti as int), text@, pos as int),
    decreases vstd::math::max(text@.len() - pos, 0), tokens@.len() - ti,
{
    proof {
        if ti < tokens@.len() {
            assert(tokens@.skip(ti as int)[0] == tokens@[ti as int]);
            assert(tokens@.skip(ti as int).drop_first() =~= tokens@.skip(ti as int + 1));
        }
    }

    if ti >= tokens.len() {
        return true;
    }

    match &tokens[ti] {
        Token::EndAnchor => ti + 1 == tokens.len() && pos == text.len(),
        Token::Star(inner) => {
            if match_from(tokens, ti + 1, text, pos) {
                return true;
            }
            if pos < text.len() && match_token(inner, text[pos]) {
                return match_from(tokens, ti, text, pos + 1);
            }
            false
        },
        Token::Plus(inner) => {
            if pos < text.len() && match_token(inner, text[pos]) {
                return match_from(tokens, ti + 1, text, pos + 1);
            }
            false
        },
        Token::Question(inner) => {
            if pos < text.len() && match_token(inner, text[pos]) {
                if match_from(tokens, ti + 1, text, pos + 1) {
                    return true;
                }
            }
            match_from(tokens, ti + 1, text, pos)
        },
        _ => {
            if pos >= text.len() {
                return false;
            }
            if match_token(&tokens[ti], text[pos]) {
                return match_from(tokens, ti + 1, text, pos + 1);
            }
            false
        },
    }
}

/// Whether `tokens` matches `text` starting exactly at `pos`.
pub fn match_here(tokens: &[Token], text: &[char], pos: usize) -> (r: bool)
    ensures
        r == spec_match_here(tokens@, text@, pos as int),
{
    proof {
        assert(tokens@.skip(0) =~= tokens@);
    }
    match_from(tokens, 0, text, pos)
}

/// Whether the pattern matches the text, scanning every start
/// position unless the pattern is anchored at the start.
pub fn regex_match(pattern: &str, text: &str) -> (r: bool)
    ensures
        r == spec_regex_match(pattern@, text@),
{
    let tokens = parse_pattern(pattern);

    let tn = text.unicode_len();
    let mut text_chars: Vec<char> = Vec::new();
    let mut i: usize = 0;
    while i < tn
        invariant
            i <= tn,
            tn == text@.len(),
            text_chars@ == text@.take(i as int),
        decreases tn - i,
    {
        let c = text.get_char(i);
        text_chars.push(c);
        proof {
            assert(text_chars@ =~= text@.take(i as int + 1));
        }
        i += 1;
    }
    proof {
        assert(text@.take(tn as int) =~= text@);
        assert(text_chars@ == text@);
    }

    let anchored = if tokens.len() > 0 {
        match &tokens[0] {
            Token::StartAnchor => true,
            _ => false,
        }
    } else {
        false
    };

    if anchored {
        proof {
            assert(tokens@.skip(1) =~= tokens@.drop_first());
        }
        return match_from(tokens.as_slice(), 1, text_chars.as_slice(), 0);
    }

    let mut start: usize = 0;
    while start < tn
        invariant
            start <= tn,
            tn == text@.len(),
            text_chars@ == text@,
            tokens@ == spec_parse(pattern@),
            !(tokens@.len() > 0 && tokens@[0] is StartAnchor),
            forall|s: int| 0 <= s < start ==> !spec_match_here(tokens@, text@, s),
        decreases tn - start,
    {
        if match_here(tokens.as_slice(), text_chars.as_slice(), start) {
            return true;
        }
        start += 1;
    }

    let last = match_here(tokens.as_slice(), text_chars.as_slice(), tn);
    proof {
        if !last && spec_regex_match(pattern@, text@) {
            let s = choose|s: int|
                0 <= s <= text@.len() && spec_match_here(spec_parse(pattern@), text@, s);
            assert(!spec_match_here(tokens@, text@, s));
        }
    }
    last
}

} // verus!
