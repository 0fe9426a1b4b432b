//! The lexer: source text is split into lexemes by one left-to-right scan,
//! and each lexeme is classified into a token. Parentheses and the quote mark
//! are single-character lexemes even adjacent to other characters; a double
//! quote opens a string lexeme that runs to the next unescaped double quote;
//! everything else accumulates between whitespace. A lexeme is classified as
//! a character literal, string, punctuation, boolean, integer, float, keyword
//! or identifier, in that order.
use vstd::prelude::*;
use vstd::string::*;

use crate::float::{spec_float_value, float_lexeme_value};
use crate::strutil::{
    char_is_whitespace, is_whitespace, spec_parse_int, parse_int, str_chars, str_eq,
    string_from_chars,
};

verus! {

/// The mathematical form of a token: texts are character sequences.
pub enum SpecToken {
    OpenParen,
    CloseParen,
    Lambda,
    Define,
    If,
    True,
    False,
    SingleQuote,
    Identifier(Seq<char>),
    Number(u64),
    Integer(i64),
    Char(char),
    Str(Seq<char>),
}

/// One token of source text. A float is carried as the bit pattern of the
/// double it denotes; a string token carries its lexeme with the surrounding
/// double quotes still present.
#[derive(Clone, Debug)]
pub enum TokenType {
    OpenParen,
    CloseParen,
    Lambda,
    Define,
    If,
    True,
    False,
    SingleQuote,
    Identifier(String),
    Number(u64),
    Integer(i64),
    Char(char),
    String(String),
}

impl View for TokenType {
    type V = SpecToken;

    open spec fn view(&self) -> SpecToken {
        match self {
            TokenType::OpenParen => SpecToken::OpenParen,
            TokenType::CloseParen => SpecToken::CloseParen,
            TokenType::Lambda => SpecToken::Lambda,
            TokenType::Define => SpecToken::Define,
            TokenType::If => SpecToken::If,
            TokenType::True => SpecToken::True,
            TokenType::False => SpecToken::False,
            TokenType::SingleQuote => SpecToken::SingleQuote,
            TokenType::Identifier(s) => SpecToken::Identifier(s@),
            TokenType::Number(b) => SpecToken::Number(*b),
            TokenType::Integer(n) => SpecToken::Integer(*n),
            TokenType::Char(c) => SpecToken::Char(*c),
            TokenType::String(s) => SpecToken::Str(s@),
        }
    }
}

impl DeepView for TokenType {
    type V = SpecToken;

    open spec fn deep_view(&self) -> SpecToken {
        self.view()
    }
}

/// The token that the lexeme `s` denotes: a character literal `#\c` (`#\`
/// followed by exactly one character); a string (any lexeme opened by a
/// double quote, kept verbatim); the single-character punctuation marks; the
/// booleans `#t` and `#f`; an integer if `i64` parsing accepts the lexeme; a
/// float if the float grammar accepts it; a keyword; and otherwise an
/// identifier. Classification never fails: an unclassifiable lexeme, such as
/// `#\` followed by several characters, is an identifier.
pub open spec fn spec_classify(s: Seq<char>) -> Option<SpecToken> {
    if s.len() == 3 && s[0] == '#' && s[1] == '\\' {
        Some(SpecToken::Char(s[2]))
    } else if s.len() >= 1 && s[0] == '"' {
        Some(SpecToken::Str(s))
    } else if s == seq!['\''] {
        Some(SpecToken::SingleQuote)
    } else if s == seq!['('] {
        Some(SpecToken::OpenParen)
    } else if s == seq![')'] {
        Some(SpecToken::CloseParen)
    } else if s == seq!['#', 't'] {
        Some(SpecToken::True)
    } else if s == seq!['#', 'f'] {
        Some(SpecToken::False)
    } else if spec_parse_int(s) is Some {
        Some(SpecToken::Integer(spec_parse_int(s)->0))
    } else if spec_float_value(s) is Some {
        Some(SpecToken::Number(spec_float_value(s)->0))
    } else if s == "lambda"@ {
        Some(SpecToken::Lambda)
    } else if s == "define"@ {
        Some(SpecToken::Define)
    } else if s == "if"@ {
        Some(SpecToken::If)
    } else {
        Some(SpecToken::Identifier(s))
    }
}

/// One step of the lexeme scan: `i` is the position in `s`, `in_str` says
/// whether a string lexeme is open, `cur` is the lexeme accumulated so far
/// and `acc` the lexemes already produced.
pub open spec fn spec_lex(
    s: Seq<char>,
    i: int,
    in_str: bool,
    cur: Seq<char>,
    acc: Seq<Seq<char>>,
) -> Seq<Seq<char>>
    decreases s.len() - i,
{
    if i < 0 || i >= s.len() {
        if cur.len() > 0 {
            acc.push(cur)
        } else {
            acc
        }
    } else {
        let c = s[i];
        if !in_str {
            let flushed = if cur.len() > 0 {
                acc.push(cur)
            } else {
                acc
            };
            if c == '"' {
                spec_lex(s, i + 1, true, seq!['"'], flushed)
            } else if c == '(' || c == ')' || c == '\'' {
                spec_lex(s, i + 1, false, Seq::empty(), flushed.push(seq![c]))
            } else if char_is_whitespace(c) {
                spec_lex(s, i + 1, false, Seq::empty(), flushed)
            } else {
                spec_lex(s, i + 1, false, cur.push(c), acc)
            }
        } else {
            if c == '\\' {
                if i + 1 >= s.len() {
                    spec_lex(s, i + 1, true, cur, acc)
                } else {
                    let e = s[i + 1];
                    let cur2 = if e == 'n' {
                        cur.push('\n')
                    } else if e == 't' {
                        cur.push('\t')
                    } else if e == '\\' {
                        cur.push('\\')
                    } else if e == '"' {
                        cur.push('"')
                    } else {
                        cur
                    };
                    spec_lex(s, i + 2, true, cur2, acc)
                }
            } else if c == '"' {
                spec_lex(s, i + 1, false, Seq::empty(), acc.push(cur.push('"')))
            } else {
                spec_lex(s, i + 1, true, cur.push(c), acc)
            }
        }
    }
}

/// The lexemes of the source text `s`.
pub open spec fn spec_lexemes(s: Seq<char>) -> Seq<Seq<char>> {
    spec_lex(s, 0, false, Seq::empty(), Seq::empty())
}

/// What `get_state` returns on a cursor over `lexemes` at `index`: nothing at
/// or past the end, and otherwise the classification of the current lexeme.
pub open spec fn spec_get_state(lexemes: Seq<Seq<char>>, index: int) -> Option<SpecToken> {
    if index >= lexemes.len() {
        None
    } else {
        spec_classify(lexemes[index])
    }
}

/// A cursor over the lexemes of one piece of source text.
#[derive(Debug)]
pub struct TokenIterator {
    pub data: Vec<String>,
    pub index: usize,
}

impl TokenIterator {
    /// The lexemes the cursor ranges over.
    pub open spec fn lexemes(&self) -> Seq<Seq<char>> {
        self.data.deep_view()
    }

    /// The current position of the cursor.
    pub open spec fn pos(&self) -> int {
        self.index as int
    }

    /// Classifies the lexeme under the cursor, without moving it. Returns
    /// nothing only at the end of the lexemes: every lexeme denotes a token.
    pub fn get_state(&self) -> (r: Option<TokenType>)
        ensures
            r.deep_view() == spec_get_state(self.lexemes(), self.pos()),
    {
        if self.index >= self.data.len() {
            return None;
        }
        let lex: &String = &self.data[self.index];
        let cs = str_chars(lex.as_str());
        proof {
            assert(self.lexemes()[self.pos()] == lex@);
        }
        if cs.len() == 3 && cs[0] == '#' && cs[1] == '\\' {
            return Some(TokenType::Char(cs[2]));
        }
        if cs.len() >= 1 && cs[0] == '"' {
            return Some(TokenType::String(lex.clone()));
        }
        if cs.len() == 1 && cs[0] == '\'' {
            proof {
                assert(cs@ =~= seq!['\'']);
            }
            return Some(TokenType::SingleQuote);
        }
        if cs.len() == 1 && cs[0] == '(' {
            proof {
                assert(cs@ =~= seq!['(']);
            }
            return Some(TokenType::OpenParen);
        }
        if cs.len() == 1 && cs[0] == ')' {
            proof {
                assert(cs@ =~= seq![')']);
            }
            return Some(TokenType::CloseParen);
        }
        proof {
            assert(cs@ != seq!['\''] && cs@ != seq!['('] && cs@ != seq![')']) by {
                if cs@.len() == 1 {
                } else {
                    assert(seq!['\''].len() == 1 && seq!['('].len() == 1 && seq![')'].len() == 1);
                }
            }
        }
        if cs.len() == 2 && cs[0] == '#' && cs[1] == 't' {
            proof {
                assert(cs@ =~= seq!['#', 't']);
            }
            return Some(TokenType::True);
        }
        if cs.len() == 2 && cs[0] == '#' && cs[1] == 'f' {
            proof {
                assert(cs@ =~= seq!['#', 'f']);
            }
            return Some(TokenType::False);
        }
        proof {
            assert(cs@ != seq!['#', 't'] && cs@ != seq!['#', 'f']) by {
                if cs@.len() == 2 {
                } else {
                    assert(seq!['#', 't'].len() == 2 && seq!['#', 'f'].len() == 2);
                }
            }
        }
        if let Some(n) = parse_int(&cs) {
            return Some(TokenType::Integer(n));
        }
        if let Some(b) = float_lexeme_value(&cs, lex.as_str()) {
            return Some(TokenType::Number(b));
        }
        if str_eq(lex.as_str(), "lambda") {
            return Some(TokenType::Lambda);
        }
        if str_eq(lex.as_str(), "define") {
            return Some(TokenType::Define);
        }
        if str_eq(lex.as_str(), "if") {
            return Some(TokenType::If);
        }
        Some(TokenType::Identifier(lex.clone()))
    }

    /// Moves the cursor one lexeme forward (it stays put at the end) and
    /// classifies the lexeme now under it.
    pub fn next(&mut self) -> (r: Option<TokenType>)
        ensures
            final(self).data@ == old(self).data@,
            final(self).lexemes() == old(self).lexemes(),
            final(self).pos() == if old(self).pos() < old(self).lexemes().len() {
                old(self).pos() + 1
            } else {
                old(self).pos()
            },
            r.deep_view() == spec_get_state(final(self).lexemes(), final(self).pos()),
    {
        if self.index < self.data.len() {
            self.index += 1;
        }
        self.get_state()
    }
}

/// Splits the source text into lexemes and returns a cursor over them,
/// standing on the first one.
pub fn tokenize(s: &String) -> (r: TokenIterator)
    ensures
        r.lexemes() == spec_lexemes(s@),
        r.pos() == 0,
{
    let cs = str_chars(s.as_str());
    let n = cs.len();
    let mut v: Vec<String> = Vec::new();
    let mut cur: Vec<char> = Vec::new();
    let mut in_str = false;
    let mut i: usize = 0;
    proof {
        assert(v.deep_view() =~= Seq::<Seq<char>>::empty());
    }
    while i < n
        invariant
            i <= n,
            n == cs@.len(),
            cs@ == s@,
            spec_lex(cs@, i as int, in_str, cur@, v.deep_view()) == spec_lexemes(s@),
        decreases n - i,
    {
        let c = cs[i];
        let ghost pre_v = v.deep_view();
        let ghost pre_cur = cur@;
        let ghost pre_i = i as int;
        let ghost pre_in_str = in_str;
        if !in_str {
            if c == '"' {
                if cur.len() > 0 {
                    let lexeme = string_from_chars(&cur);
                    v.push(lexeme);
                    cur = Vec::new();
                    proof {
                        assert(v.deep_view() =~= pre_v.push(pre_cur));
                    }
                }
                cur = Vec::new();
                cur.push('"');
                proof {
                    assert(cur@ =~= seq!['"']);
                }
                in_str = true;
                i += 1;
                proof {
                    assert(spec_lex(cs@, pre_i, pre_in_str, pre_cur, pre_v) == spec_lex(cs@, i as int, in_str, cur@, v.deep_view()));
                }
            } else if c == '(' || c == ')' || c == '\'' {
                if cur.len() > 0 {
                    let lexeme = string_from_chars(&cur);
                    v.push(lexeme);
                    cur = Vec::new();
                    proof {
                        assert(v.deep_view() =~= pre_v.push(pre_cur));
                    }
                }
                let ghost flushed = v.deep_view();
                let mut single: Vec<char> = Vec::new();
                single.push(c);
                let lexeme = string_from_chars(&single);
                v.push(lexeme);
                cur = Vec::new();
                proof {
                    assert(single@ =~= seq![c]);
                    assert(v.deep_view() =~= flushed.push(seq![c]));
                }
                i += 1;
                proof {
                    assert(spec_lex(cs@, pre_i, pre_in_str, pre_cur, pre_v) == spec_lex(cs@, i as int, in_str, cur@, v.deep_view()));
                }
            } else if is_whitespace(c) {
                if cur.len() > 0 {
                    let lexeme = string_from_chars(&cur);
                    v.push(lexeme);
                    cur = Vec::new();
                    proof {
                        assert(v.deep_view() =~= pre_v.push(pre_cur));
                    }
                } else {
                    proof {
                        assert(cur@ =~= Seq::<char>::empty());
                    }
                }
                i += 1;
                proof {
                    assert(spec_lex(cs@, pre_i, pre_in_str, pre_cur, pre_v) == spec_lex(cs@, i as int, in_str, cur@, v.deep_view()));
                }
            } else {
                cur.push(c);
                i += 1;
                proof {
                    assert(spec_lex(cs@, pre_i, pre_in_str, pre_cur, pre_v) == spec_lex(cs@, i as int, in_str, cur@, v.deep_view()));
                }
            }
        } else {
            if c == '\\' {
                if i + 1 >= n {
                    i += 1;
                    proof {
                        assert(spec_lex(cs@, pre_i, pre_in_str, pre_cur, pre_v) == spec_lex(cs@, i as int, in_str, cur@, v.deep_view()));
                    }
                } else {
                    let e = cs[i + 1];
                    if e == 'n' {
                        cur.push('\n');
                    } else if e == 't' {
                        cur.push('\t');
                    } else if e == '\\' {
                        cur.push('\\');
                    } else if e == '"' {
                        cur.push('"');
                    }
                    i += 2;
                    proof {
                        assert(spec_lex(cs@, pre_i, pre_in_str, pre_cur, pre_v) == spec_lex(cs@, i as int, in_str, cur@, v.deep_view()));
                    }
                }
            } else if c == '"' {
                cur.push('"');
                let lexeme = string_from_chars(&cur);
                v.push(lexeme);
                cur = Vec::new();
                proof {
                    assert(v.deep_view() =~= pre_v.push(pre_cur.push('"')));
                }
                in_str = false;
                i += 1;
                proof {
                    assert(spec_lex(cs@, pre_i, pre_in_str, pre_cur, pre_v) == spec_lex(cs@, i as int, in_str, cur@, v.deep_view()));
                }
            } else {
                cur.push(c);
                i += 1;
                proof {
                    assert(spec_lex(cs@, pre_i, pre_in_str, pre_cur, pre_v) == spec_lex(cs@, i as int, in_str, cur@, v.deep_view()));
                }
            }
        }
    }
    if cur.len() > 0 {
        let ghost pre_v = v.deep_view();
        let lexeme = string_from_chars(&cur);
        v.push(lexeme);
        proof {
            assert(v.deep_view() =~= pre_v.push(cur@));
        }
    }
    TokenIterator { data: v, index: 0 }
}

/// The nesting balance of parentheses in `s`: opening adds one, closing
/// subtracts one. The driver reads more lines until a form balances.
pub open spec fn spec_paren_balance(s: Seq<char>) -> int
    decreases s.len(),
{
    if s.len() == 0 {
        0
    } else {
        spec_paren_balance(s.drop_last()) + (if s.last() == '(' {
            1int
        } else if s.last() == ')' {
            -1int
        } else {
            0int
        })
    }
}

/// Counts the nesting balance of parentheses in `s`, exactly as
/// `spec_paren_balance` describes.
pub fn paren_balance(s: &str) -> (r: i128)
    ensures
        r == spec_paren_balance(s@),
{
    let n = s.unicode_len();
    let mut bal: i128 = 0;
    let mut i: usize = 0;
    while i < n
        invariant
            i <= n,
            n == s@.len(),
            -(i as int) <= bal <= i as int,
            bal == spec_paren_balance(s@.take(i as int)),
        decreases n - i,
    {
        let c = s.get_char(i);
        proof {
            assert(s@.take(i + 1 as int).drop_last() =~= s@.take(i as int));
            assert(s@.take(i + 1 as int).last() == c);
        }
        if c == '(' {
            bal = bal + 1;
        } else if c == ')' {
            bal = bal - 1;
        }
        i += 1;
    }
    proof {
        assert(s@.take(n as int) =~= s@);
    }
    bal
}

} // verus!
