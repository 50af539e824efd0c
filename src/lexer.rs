use vstd::prelude::*;

verus! {

/// The tokens of the command language.
#[derive(Debug, Clone, Copy, PartialEq, Eq, Structural)]
pub enum Token {
    /// `..`
    Join,
    /// `|`
    Pipe,
    /// `.`
    Deref,
    /// `;`
    Comma,
    /// `,`
    Separator,
    /// `=`
    Assign,
    /// `=>`
    Fn,
    /// `(`
    GroupOpen,
    /// `)`
    GroupClose,
    /// `{`
    BraceOpen,
    /// `}`
    BraceClose,
    /// `[A-Za-z_][A-Za-z_0-9-]*`
    Ident,
    /// `-?[0-9]+`
    LiteralInteger,
    /// `[0-9]*\.[0-9]+([eE][+-]?[0-9]+)?` or `[0-9]+[eE][+-]?[0-9]+`
    LiteralFloat,
    /// A double-quoted string with the escapes `\t`, `\u`, `\n` and `\"`.
    LiteralString,
    /// `let`
    Keyword,
    /// A character that starts no token.
    Error,
}

impl Token {
    pub open spec fn spec_is_literal(self) -> bool {
        self is LiteralString || self is LiteralInteger || self is LiteralFloat
    }

    /// Whether the token is a string, integer or float literal.
    pub fn is_literal(&self) -> (r: bool)
        ensures
            r == self.spec_is_literal(),
    {
        match self {
            Token::LiteralString | Token::LiteralInteger | Token::LiteralFloat => true,
            _ => false,
        }
    }
}

/// A token and the characters `[start, end)` of the text it was read from.
#[derive(Debug, Clone, Copy, PartialEq, Eq, Structural)]
pub struct Lexeme {
    pub token: Token,
    pub start: usize,
    pub end: usize,
}

pub open spec fn is_space(c: char) -> bool {
    c == ' ' || c == '\t' || c == '\n' || c == '\x0C'
}

pub open spec fn is_digit(c: char) -> bool {
    '0' <= c <= '9'
}

pub open spec fn is_ident_start(c: char) -> bool {
    ('a' <= c <= 'z') || ('A' <= c <= 'Z') || c == '_'
}

pub open spec fn is_ident_char(c: char) -> bool {
    is_ident_start(c) || is_digit(c) || c == '-'
}

/// The character at `i`, or a character that belongs to no class past the end.
pub open spec fn at(s: Seq<char>, i: int) -> char {
    if 0 <= i < s.len() {
        s[i]
    } else {
        '\0'
    }
}

/// The end of the run of digits that starts at `i`.
pub open spec fn digits_end(s: Seq<char>, i: int) -> int
    decreases s.len() - i,
{
    if 0 <= i < s.len() && is_digit(s[i]) {
        digits_end(s, i + 1)
    } else {
        i
    }
}

/// The end of the run of identifier characters that starts at `i`.
pub open spec fn ident_end(s: Seq<char>, i: int) -> int
    decreases s.len() - i,
{
    if 0 <= i < s.len() && is_ident_char(s[i]) {
        ident_end(s, i + 1)
    } else {
        i
    }
}

/// The end of an exponent `[eE][+-]?[0-9]+` at `m`, or `m` where there is none.
pub open spec fn exponent_end(s: Seq<char>, m: int) -> int {
    if at(s, m) == 'e' || at(s, m) == 'E' {
        let j = if at(s, m + 1) == '+' || at(s, m + 1) == '-' {
            m + 2
        } else {
            m + 1
        };
        if is_digit(at(s, j)) {
            digits_end(s, j)
        } else {
            m
        }
    } else {
        m
    }
}

/// The end of a string literal whose body starts at `i`, if it is closed
/// and holds only the accepted escapes.
pub open spec fn string_end(s: Seq<char>, i: int) -> Option<int>
    decreases s.len() - i,
{
    if i < 0 || i >= s.len() {
        None
    } else if s[i] == '"' {
        Some(i + 1)
    } else if s[i] == '\\' {
        let e = at(s, i + 1);
        if e == 't' || e == 'u' || e == 'n' || e == '"' {
            string_end(s, i + 2)
        } else {
            None
        }
    } else {
        string_end(s, i + 1)
    }
}

/// The token that starts at the non-blank character `i`, and where it ends:
/// the longest match, `let` read as the keyword.
pub open spec fn scan(s: Seq<char>, i: int) -> (Token, int) {
    let c = s[i];
    let n = at(s, i + 1);
    if c == '.' {
        if n == '.' {
            (Token::Join, i + 2)
        } else if is_digit(n) {
            (Token::LiteralFloat, exponent_end(s, digits_end(s, i + 1)))
        } else {
            (Token::Deref, i + 1)
        }
    } else if c == '|' {
        (Token::Pipe, i + 1)
    } else if c == ';' {
        (Token::Comma, i + 1)
    } else if c == ',' {
        (Token::Separator, i + 1)
    } else if c == '(' {
        (Token::GroupOpen, i + 1)
    } else if c == ')' {
        (Token::GroupClose, i + 1)
    } else if c == '{' {
        (Token::BraceOpen, i + 1)
    } else if c == '}' {
        (Token::BraceClose, i + 1)
    } else if c == '=' {
        if n == '>' {
            (Token::Fn, i + 2)
        } else {
            (Token::Assign, i + 1)
        }
    } else if is_ident_start(c) {
        let e = ident_end(s, i + 1);
        if s.subrange(i, e) == seq!['l', 'e', 't'] {
            (Token::Keyword, e)
        } else {
            (Token::Ident, e)
        }
    } else if is_digit(c) {
        let d = digits_end(s, i);
        if at(s, d) == '.' && is_digit(at(s, d + 1)) {
            (Token::LiteralFloat, exponent_end(s, digits_end(s, d + 1)))
        } else if exponent_end(s, d) > d {
            (Token::LiteralFloat, exponent_end(s, d))
        } else {
            (Token::LiteralInteger, d)
        }
    } else if c == '-' && is_digit(n) {
        (Token::LiteralInteger, digits_end(s, i + 1))
    } else if c == '"' {
        match string_end(s, i + 1) {
            Some(e) => (Token::LiteralString, e),
            None => (Token::Error, i + 1),
        }
    } else {
        (Token::Error, i + 1)
    }
}

proof fn lemma_digits_end(s: Seq<char>, i: int)
    requires
        0 <= i <= s.len(),
    ensures
        i <= digits_end(s, i) <= s.len(),
    decreases s.len() - i,
{
    if i < s.len() && is_digit(s[i]) {
        lemma_digits_end(s, i + 1);
    }
}

proof fn lemma_ident_end(s: Seq<char>, i: int)
    requires
        0 <= i <= s.len(),
    ensures
        i <= ident_end(s, i) <= s.len(),
    decreases s.len() - i,
{
    if i < s.len() && is_ident_char(s[i]) {
        lemma_ident_end(s, i + 1);
    }
}

proof fn lemma_exponent_end(s: Seq<char>, m: int)
    requires
        0 <= m <= s.len(),
    ensures
        m <= exponent_end(s, m) <= s.len(),
{
    if at(s, m) == 'e' || at(s, m) == 'E' {
        let j = if at(s, m + 1) == '+' || at(s, m + 1) == '-' {
            m + 2
        } else {
            m + 1
        };
        if is_digit(at(s, j)) {
            lemma_digits_end(s, j);
        }
    }
}

proof fn lemma_string_end(s: Seq<char>, i: int)
    requires
        0 <= i,
    ensures
        string_end(s, i) matches Some(e) ==> i < e <= s.len(),
    decreases s.len() - i,
{
    if 0 <= i < s.len() && s[i] != '"' {
        if s[i] == '\\' {
            let e = at(s, i + 1);
            if e == 't' || e == 'u' || e == 'n' || e == '"' {
                lemma_string_end(s, i + 2);
            }
        } else {
            lemma_string_end(s, i + 1);
        }
    }
}

proof fn lemma_scan(s: Seq<char>, i: int)
    requires
        0 <= i < s.len(),
    ensures
        i < scan(s, i).1 <= s.len(),
{
    lemma_digits_end(s, i);
    lemma_ident_end(s, i + 1);
    if i + 1 <= s.len() {
        lemma_digits_end(s, i + 1);
    }
    let d = digits_end(s, i);
    lemma_exponent_end(s, d);
    if at(s, d) == '.' && is_digit(at(s, d + 1)) {
        lemma_digits_end(s, d + 1);
        lemma_exponent_end(s, digits_end(s, d + 1));
    }
    if s[i] == '.' && is_digit(at(s, i + 1)) {
        lemma_exponent_end(s, digits_end(s, i + 1));
    }
    lemma_string_end(s, i + 1);
}

/// The lexemes of `s` from position `i`, blanks skipped.
pub open spec fn lex(s: Seq<char>, i: int) -> Seq<Lexeme>
    decreases s.len() - i,
{
    if i < 0 || i >= s.len() {
        Seq::empty()
    } else if is_space(s[i]) {
        lex(s, i + 1)
    } else {
        let (t, e) = scan(s, i);
        if i < e <= s.len() {
            seq![Lexeme { token: t, start: i as usize, end: e as usize }] + lex(s, e)
        } else {
            Seq::empty()
        }
    }
}

/// Every lexeme read from `i` on lies within the text, after `i`.
pub proof fn lemma_lex_spans(s: Seq<char>, i: int)
    requires
        0 <= i <= s.len(),
        s.len() <= usize::MAX,
    ensures
        forall|k: int|
            0 <= k < lex(s, i).len() ==> i <= (#[trigger] lex(s, i)[k]).start < lex(s, i)[k].end
                <= s.len(),
    decreases s.len() - i,
{
    if i < s.len() {
        if is_space(s[i]) {
            lemma_lex_spans(s, i + 1);
        } else {
            lemma_scan(s, i);
            let e = scan(s, i).1;
            lemma_lex_spans(s, e);
            let rest = lex(s, e);
            let l = Lexeme { token: scan(s, i).0, start: i as usize, end: e as usize };
            assert(lex(s, i) == seq![l] + rest);
            assert forall|k: int| 0 <= k < lex(s, i).len() implies i <= (#[trigger] lex(s, i)[k]).start
                < lex(s, i)[k].end <= s.len() by {
                if k > 0 {
                    assert(lex(s, i)[k] == rest[k - 1]);
                }
            }
        }
    }
}

pub(crate) proof fn lemma_lex_len(s: Seq<char>, i: int)
    requires
        0 <= i <= s.len(),
    ensures
        lex(s, i).len() <= s.len() - i,
    decreases s.len() - i,
{
    if i < s.len() {
        if is_space(s[i]) {
            lemma_lex_len(s, i + 1);
        } else {
            lemma_scan(s, i);
            lemma_lex_len(s, scan(s, i).1);
        }
    }
}

fn char_at(s: &Vec<char>, i: usize) -> (r: char)
    ensures
        r == at(s@, i as int),
{
    if i < s.len() {
        s[i]
    } else {
        '\0'
    }
}

fn space(c: char) -> (r: bool)
    ensures
        r == is_space(c),
{
    c == ' ' || c == '\t' || c == '\n' || c == '\x0C'
}

fn digit(c: char) -> (r: bool)
    ensures
        r == is_digit(c),
{
    '0' <= c && c <= '9'
}

fn ident_start(c: char) -> (r: bool)
    ensures
        r == is_ident_start(c),
{
    ('a' <= c && c <= 'z') || ('A' <= c && c <= 'Z') || c == '_'
}

fn ident_char(c: char) -> (r: bool)
    ensures
        r == is_ident_char(c),
{
    ident_start(c) || digit(c) || c == '-'
}

fn exec_digits_end(s: &Vec<char>, i: usize) -> (r: usize)
    requires
        i <= s@.len(),
    ensures
        r == digits_end(s@, i as int),
{
    let mut k = i;
    while k < s.len() && digit(s[k])
        invariant
            i <= k <= s@.len(),
            digits_end(s@, k as int) == digits_end(s@, i as int),
        decreases s@.len() - k,
    {
        k = k + 1;
    }
    k
}

fn exec_ident_end(s: &Vec<char>, i: usize) -> (r: usize)
    requires
        i <= s@.len(),
    ensures
        r == ident_end(s@, i as int),
{
    let mut k = i;
    while k < s.len() && ident_char(s[k])
        invariant
            i <= k <= s@.len(),
            ident_end(s@, k as int) == ident_end(s@, i as int),
        decreases s@.len() - k,
    {
        k = k + 1;
    }
    k
}

fn exec_exponent_end(s: &Vec<char>, m: usize) -> (r: usize)
    requires
        s@.len() + 3 <= usize::MAX,
        m <= s@.len(),
    ensures
        r == exponent_end(s@, m as int),
{
    let c = char_at(s, m);
    if c == 'e' || c == 'E' {
        let sign = char_at(s, m + 1);
        let j = if sign == '+' || sign == '-' {
            m + 2
        } else {
            m + 1
        };
        if digit(char_at(s, j)) {
            exec_digits_end(s, j)
        } else {
            m
        }
    } else {
        m
    }
}

fn exec_string_end(s: &Vec<char>, i: usize) -> (r: Option<usize>)
    requires
        s@.len() + 3 <= usize::MAX,
        i <= s@.len(),
    ensures
        r matches Some(e) ==> string_end(s@, i as int) == Some(e as int),
        r is None ==> string_end(s@, i as int) is None,
{
    let mut k = i;
    while k < s.len()
        invariant
            i <= k <= s@.len() + 1,
            string_end(s@, k as int) == string_end(s@, i as int),
        decreases s@.len() + 1 - k,
    {
        let c = s[k];
        if c == '"' {
            return Some(k + 1);
        } else if c == '\\' {
            let e = char_at(s, k + 1);
            if e == 't' || e == 'u' || e == 'n' || e == '"' {
                k = k + 2;
            } else {
                return None;
            }
        } else {
            k = k + 1;
        }
    }
    None
}

fn is_let(s: &Vec<char>, i: usize, e: usize) -> (r: bool)
    requires
        i <= e <= s@.len(),
    ensures
        r == (s@.subrange(i as int, e as int) == seq!['l', 'e', 't']),
{
    if e - i == 3 && s[i] == 'l' && s[i + 1] == 'e' && s[i + 2] == 't' {
        assert(s@.subrange(i as int, e as int) =~= seq!['l', 'e', 't']);
        true
    } else {
        proof {
            if e - i == 3 {
                assert(s@.subrange(i as int, e as int)[0] == s@[i as int]);
                assert(s@.subrange(i as int, e as int)[1] == s@[i + 1]);
                assert(s@.subrange(i as int, e as int)[2] == s@[i + 2]);
            }
            if s@.subrange(i as int, e as int) == seq!['l', 'e', 't'] {
                assert(s@.subrange(i as int, e as int).len() == 3);
            }
        }
        false
    }
}

fn exec_scan(s: &Vec<char>, i: usize) -> (r: (Token, usize))
    requires
        s@.len() + 3 <= usize::MAX,
        i < s@.len(),
    ensures
        r.0 == scan(s@, i as int).0,
        r.1 == scan(s@, i as int).1,
{
    proof {
        lemma_scan(s@, i as int);
        lemma_digits_end(s@, i as int);
        lemma_digits_end(s@, i + 1);
    }
    let c = s[i];
    let n = char_at(s, i + 1);
    if c == '.' {
        if n == '.' {
            (Token::Join, i + 2)
        } else if digit(n) {
            let d = exec_digits_end(s, i + 1);
            (Token::LiteralFloat, exec_exponent_end(s, d))
        } else {
            (Token::Deref, i + 1)
        }
    } else if c == '|' {
        (Token::Pipe, i + 1)
    } else if c == ';' {
        (Token::Comma, i + 1)
    } else if c == ',' {
        (Token::Separator, i + 1)
    } else if c == '(' {
        (Token::GroupOpen, i + 1)
    } else if c == ')' {
        (Token::GroupClose, i + 1)
    } else if c == '{' {
        (Token::BraceOpen, i + 1)
    } else if c == '}' {
        (Token::BraceClose, i + 1)
    } else if c == '=' {
        if n == '>' {
            (Token::Fn, i + 2)
        } else {
            (Token::Assign, i + 1)
        }
    } else if ident_start(c) {
        proof {
            lemma_ident_end(s@, i + 1);
        }
        let e = exec_ident_end(s, i + 1);
        if is_let(s, i, e) {
            (Token::Keyword, e)
        } else {
            (Token::Ident, e)
        }
    } else if digit(c) {
        let d = exec_digits_end(s, i);
        if char_at(s, d) == '.' && digit(char_at(s, d + 1)) {
            proof {
                lemma_digits_end(s@, d + 1);
            }
            let f = exec_digits_end(s, d + 1);
            proof {
                lemma_digits_end(s@, d + 1);
            }
            (Token::LiteralFloat, exec_exponent_end(s, f))
        } else {
            let x = exec_exponent_end(s, d);
            if x > d {
                (Token::LiteralFloat, x)
            } else {
                (Token::LiteralInteger, d)
            }
        }
    } else if c == '-' && digit(n) {
        (Token::LiteralInteger, exec_digits_end(s, i + 1))
    } else if c == '"' {
        match exec_string_end(s, i + 1) {
            Some(e) => (Token::LiteralString, e),
            None => (Token::Error, i + 1),
        }
    } else {
        (Token::Error, i + 1)
    }
}

/// The characters of `text`.
pub fn chars_of(text: &str) -> (r: Vec<char>)
    ensures
        r@ == text@,
{
    let n = text.unicode_len();
    let mut r: Vec<char> = Vec::new();
    let mut i: usize = 0;
    while i < n
        invariant
            n == text@.len(),
            i <= n,
            r@ == text@.subrange(0, i as int),
        decreases n - i,
    {
        r.push(text.get_char(i));
        i = i + 1;
        proof {
            assert(r@ =~= text@.subrange(0, i as int));
        }
    }
    proof {
        assert(r@ =~= text@);
    }
    r
}

/// Splits the characters `s` into lexemes: blanks are skipped, each token is
/// the longest match at its place, and a character that starts no token is
/// an `Error` lexeme of its own.
pub fn tokenize(s: &Vec<char>) -> (r: Vec<Lexeme>)
    requires
        s@.len() + 3 <= usize::MAX,
    ensures
        r@ == lex(s@, 0),
{
    let mut r: Vec<Lexeme> = Vec::new();
    let mut i: usize = 0;
    while i < s.len()
        invariant
            i <= s@.len(),
            s@.len() + 3 <= usize::MAX,
            r@ + lex(s@, i as int) == lex(s@, 0),
        decreases s@.len() - i,
    {
        if space(s[i]) {
            i = i + 1;
        } else {
            let (t, e) = exec_scan(s, i);
            proof {
                lemma_scan(s@, i as int);
                let l = Lexeme { token: t, start: i, end: e };
                assert(lex(s@, i as int) == seq![l] + lex(s@, e as int));
                assert(r@.push(l) + lex(s@, e as int) =~= r@ + (seq![l] + lex(s@, e as int)));
            }
            r.push(Lexeme { token: t, start: i, end: e });
            i = e;
        }
    }
    proof {
        assert(r@ + lex(s@, i as int) =~= r@);
    }
    r
}

} // verus!
