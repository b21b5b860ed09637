//! Tokens and the lexeme classifier.
//!
//! A finished lexeme string is mapped to a [`TokenType`] by a fixed
//! precedence: exact one- and two-character literals first, then string
//! literals, numeric literals, line comments and whitespace runs, and
//! finally the `Atom` default. The whole mapping is captured by the spec
//! function [`classify_spec`].
//!
//! Deliberate choices in the lexical grammar (the classifier is total and
//! never fails; everything unrecognised falls through to `Atom`):
//! - a numeric literal is a non-empty run of ASCII digits whose decimal
//!   value fits in `u128`; a leading zero is legal (`"0123"` is the number
//!   123), and an oversized digit run classifies as an atom;
//! - a string literal is any lexeme of length at least two that starts and
//!   ends with a double quote;
//! - a line comment is any lexeme that starts with a semicolon;
//! - whitespace characters are the six ASCII ones: space, tab, line feed,
//!   carriage return, vertical tab and form feed.

use vstd::prelude::*;
use vstd::string::StrSliceExecFns;

verus! {

/// Ghost image of a token kind: the payloads of [`TokenType`] abstracted
/// to mathematical values (`Seq<char>` for text, `nat` for numbers).
pub enum LexKind {
    Atom(Seq<char>),
    Number(nat),
    Str(Seq<char>),
    True(bool),
    False(bool),
    UnquoteSplice,
    LeftParen,
    RightParen,
    Comma,
    At,
    Backquote,
    SingleQuote,
    Comment(Seq<char>),
    Newline,
    Tab,
    Whitespace(Seq<char>),
    EOF,
}

#[derive(Debug, PartialEq)]
pub enum TokenType {
    // Composite tokens
    Atom(String),
    Number(u128),
    Str(String),
    True(bool),
    False(bool),
    UnquoteSplice,
    // Single characters
    LeftParen,
    RightParen,
    Comma,
    At,
    Backquote,
    SingleQuote,
    Comment(String),
    // Whitespace characters
    Newline,
    Tab,
    Whitespace(String),
    EOF,
}

impl View for TokenType {
    type V = LexKind;

    open spec fn view(&self) -> LexKind {
        match self {
            TokenType::Atom(s) => LexKind::Atom(s@),
            TokenType::Number(n) => LexKind::Number(*n as nat),
            TokenType::Str(s) => LexKind::Str(s@),
            TokenType::True(b) => LexKind::True(*b),
            TokenType::False(b) => LexKind::False(*b),
            TokenType::UnquoteSplice => LexKind::UnquoteSplice,
            TokenType::LeftParen => LexKind::LeftParen,
            TokenType::RightParen => LexKind::RightParen,
            TokenType::Comma => LexKind::Comma,
            TokenType::At => LexKind::At,
            TokenType::Backquote => LexKind::Backquote,
            TokenType::SingleQuote => LexKind::SingleQuote,
            TokenType::Comment(s) => LexKind::Comment(s@),
            TokenType::Newline => LexKind::Newline,
            TokenType::Tab => LexKind::Tab,
            TokenType::Whitespace(s) => LexKind::Whitespace(s@),
            TokenType::EOF => LexKind::EOF,
        }
    }
}

/// The six ASCII whitespace characters the lexer recognises.
pub open spec fn is_ws_char(c: char) -> bool {
    c == ' ' || c == '\t' || c == '\n' || c == '\r' || c == '\u{b}' || c == '\u{c}'
}

pub open spec fn is_digit_char(c: char) -> bool {
    48 <= c as u32 <= 57
}

/// Value of an ASCII digit character.
pub open spec fn digit_val(c: char) -> nat
    recommends
        is_digit_char(c),
{
    (c as u32 - 48) as nat
}

/// Decimal value of a digit string, most significant digit first.
pub open spec fn digits_val(s: Seq<char>) -> nat
    decreases s.len(),
{
    if s.len() == 0 {
        0
    } else {
        digits_val(s.drop_last()) * 10 + digit_val(s.last())
    }
}

pub open spec fn all_digits(s: Seq<char>) -> bool {
    forall|i: int| 0 <= i < s.len() ==> is_digit_char(#[trigger] s[i])
}

pub open spec fn all_ws(s: Seq<char>) -> bool {
    forall|i: int| 0 <= i < s.len() ==> is_ws_char(#[trigger] s[i])
}

/// A numeric lexeme: non-empty, all digits, and its value fits in `u128`.
pub open spec fn is_number_lexeme(s: Seq<char>) -> bool {
    s.len() > 0 && all_digits(s) && digits_val(s) <= u128::MAX
}

/// A string-literal lexeme: delimited by double quotes on both ends.
pub open spec fn is_string_lexeme(s: Seq<char>) -> bool {
    s.len() >= 2 && s[0] == '"' && s[s.len() - 1] == '"'
}

/// A line-comment lexeme: starts with a semicolon.
pub open spec fn is_comment_lexeme(s: Seq<char>) -> bool {
    s.len() > 0 && s[0] == ';'
}

/// A whitespace-run lexeme: non-empty and all whitespace.
pub open spec fn is_whitespace_lexeme(s: Seq<char>) -> bool {
    s.len() > 0 && all_ws(s)
}

/// The complete classification of a lexeme, in precedence order.
pub open spec fn classify_spec(s: Seq<char>) -> LexKind {
    if s.len() == 1 && s[0] == '(' {
        LexKind::LeftParen
    } else if s.len() == 1 && s[0] == ')' {
        LexKind::RightParen
    } else if s.len() == 2 && s[0] == ',' && s[1] == '@' {
        LexKind::UnquoteSplice
    } else if s.len() == 1 && s[0] == ',' {
        LexKind::Comma
    } else if s.len() == 1 && s[0] == '@' {
        LexKind::At
    } else if s.len() == 1 && s[0] == '`' {
        LexKind::Backquote
    } else if s.len() == 1 && s[0] == '\'' {
        LexKind::SingleQuote
    } else if s.len() == 2 && s[0] == '#' && s[1] == 't' {
        LexKind::True(true)
    } else if s.len() == 2 && s[0] == '#' && s[1] == 'f' {
        LexKind::False(false)
    } else if s.len() == 1 && s[0] == '\n' {
        LexKind::Newline
    } else if s.len() == 1 && s[0] == '\t' {
        LexKind::Tab
    } else if is_string_lexeme(s) {
        LexKind::Str(s)
    } else if is_number_lexeme(s) {
        LexKind::Number(digits_val(s))
    } else if is_comment_lexeme(s) {
        LexKind::Comment(s)
    } else if is_whitespace_lexeme(s) {
        LexKind::Whitespace(s)
    } else {
        LexKind::Atom(s)
    }
}

/// Ghost image of a token: row span, column span, classified kind.
pub struct TokenView {
    pub row: (nat, nat),
    pub col: (nat, nat),
    pub kind: LexKind,
}

/// A classified lexical unit with its source span. Row and column spans
/// are zero-based and inclusive at both ends.
#[derive(Debug, PartialEq)]
pub struct Token {
    row: (usize, usize),
    col: (usize, usize),
    _type: TokenType,
}

impl View for Token {
    type V = TokenView;

    closed spec fn view(&self) -> TokenView {
        TokenView {
            row: (self.row.0 as nat, self.row.1 as nat),
            col: (self.col.0 as nat, self.col.1 as nat),
            kind: self._type@,
        }
    }
}

proof fn lemma_digits_val_step(s: Seq<char>, j: int)
    requires
        0 <= j < s.len(),
    ensures
        digits_val(s.take(j + 1)) == digits_val(s.take(j)) * 10 + digit_val(s[j]),
{
    assert(s.take(j + 1).drop_last() =~= s.take(j));
    assert(s.take(j + 1).last() == s[j]);
}

/// The value of a digit string is at least the value of any prefix.
proof fn lemma_digits_val_prefix_le(s: Seq<char>, j: int)
    requires
        0 <= j <= s.len(),
    ensures
        digits_val(s.take(j)) <= digits_val(s),
    decreases s.len() - j,
{
    if j == s.len() {
        assert(s.take(j) =~= s);
    } else {
        lemma_digits_val_step(s, j);
        lemma_digits_val_prefix_le(s, j + 1);
    }
}

/// Scan a lexeme as a number. Returns its value exactly when the lexeme
/// is a numeric literal of the grammar.
fn scan_number(s: &str) -> (r: Option<u128>)
    ensures
        match r {
            Some(v) => is_number_lexeme(s@) && v as nat == digits_val(s@),
            None => !is_number_lexeme(s@),
        },
{
    let n = s.unicode_len();
    if n == 0 {
        return None;
    }
    let mut acc: u128 = 0;
    let mut i: usize = 0;
    while i < n
        invariant
            0 <= i <= n,
            n as nat == s@.len(),
            all_digits(s@.take(i as int)),
            acc as nat == digits_val(s@.take(i as int)),
        decreases n - i,
    {
        let c = s.get_char(i);
        let u = c as u32;
        if u < 48 || u > 57 {
            assert(!is_digit_char(s@[i as int]));
            return None;
        }
        let d = (u - 48) as u128;
        proof {
            lemma_digits_val_step(s@, i as int);
        }
        let m = match acc.checked_mul(10) {
            Some(m) => m,
            None => {
                proof {
                    lemma_digits_val_prefix_le(s@, i as int + 1);
                }
                return None;
            },
        };
        let a = match m.checked_add(d) {
            Some(a) => a,
            None => {
                proof {
                    lemma_digits_val_prefix_le(s@, i as int + 1);
                }
                return None;
            },
        };
        acc = a;
        i = i + 1;
    }
    assert(s@.take(n as int) =~= s@);
    Some(acc)
}

/// Is every character of the lexeme whitespace?
fn scan_all_ws(s: &str) -> (r: bool)
    ensures
        r == all_ws(s@),
{
    let n = s.unicode_len();
    let mut i: usize = 0;
    while i < n
        invariant
            0 <= i <= n,
            n as nat == s@.len(),
            forall|j: int| 0 <= j < i ==> is_ws_char(#[trigger] s@[j]),
        decreases n - i,
    {
        let c = s.get_char(i);
        if !(c == ' ' || c == '\t' || c == '\n' || c == '\r' || c == '\u{b}' || c == '\u{c}') {
            assert(!is_ws_char(s@[i as int]));
            return false;
        }
        i = i + 1;
    }
    true
}

/// Map a finished lexeme to its token kind; see [`classify_spec`].
fn classify(raw: String) -> (t: TokenType)
    ensures
        t@ == classify_spec(raw@),
{
    let n = raw.as_str().unicode_len();
    if n == 1 {
        let c = raw.as_str().get_char(0);
        if c == '(' {
            return TokenType::LeftParen;
        }
        if c == ')' {
            return TokenType::RightParen;
        }
        if c == ',' {
            return TokenType::Comma;
        }
        if c == '@' {
            return TokenType::At;
        }
        if c == '`' {
            return TokenType::Backquote;
        }
        if c == '\'' {
            return TokenType::SingleQuote;
        }
        if c == '\n' {
            return TokenType::Newline;
        }
        if c == '\t' {
            return TokenType::Tab;
        }
    }
    if n == 2 {
        let c0 = raw.as_str().get_char(0);
        let c1 = raw.as_str().get_char(1);
        if c0 == ',' && c1 == '@' {
            return TokenType::UnquoteSplice;
        }
        if c0 == '#' && c1 == 't' {
            return TokenType::True(true);
        }
        if c0 == '#' && c1 == 'f' {
            return TokenType::False(false);
        }
    }
    if n >= 2 && raw.as_str().get_char(0) == '"' && raw.as_str().get_char(n - 1) == '"' {
        return TokenType::Str(raw);
    }
    match scan_number(raw.as_str()) {
        Some(v) => {
            return TokenType::Number(v);
        },
        None => {},
    }
    if n > 0 && raw.as_str().get_char(0) == ';' {
        return TokenType::Comment(raw);
    }
    if n > 0 && scan_all_ws(raw.as_str()) {
        return TokenType::Whitespace(raw);
    }
    TokenType::Atom(raw)
}

impl Token {
    /// Classify a raw lexeme and record its source span.
    pub fn new(row: (usize, usize), col: (usize, usize), raw_characters: String) -> (t: Token)
        ensures
            t@ == (TokenView {
                row: (row.0 as nat, row.1 as nat),
                col: (col.0 as nat, col.1 as nat),
                kind: classify_spec(raw_characters@),
            }),
    {
        Token { row, col, _type: classify(raw_characters) }
    }

    /// Decompose a token into its row span, column span and kind.
    pub fn into_raw_parts(self) -> (r: ((usize, usize), (usize, usize), TokenType))
        ensures
            (r.0.0 as nat, r.0.1 as nat) == self@.row,
            (r.1.0 as nat, r.1.1 as nat) == self@.col,
            r.2@ == self@.kind,
    {
        (self.row, self.col, self._type)
    }
}

pub open spec fn token_views(ts: Seq<Token>) -> Seq<TokenView> {
    ts.map_values(|t: Token| t@)
}

/// Every token kind that has a lexeme at all is realised by at least one
/// literal lexeme string; the witnesses below are canonical ones. (`EOF`
/// is the one kind the classifier never produces: it stands for the end
/// of the input, which no lexeme spells.)
pub proof fn lemma_classifier_covers_kinds()
    ensures
        classify_spec(seq!['(']) == LexKind::LeftParen,
        classify_spec(seq![')']) == LexKind::RightParen,
        classify_spec(seq![',', '@']) == LexKind::UnquoteSplice,
        classify_spec(seq![',']) == LexKind::Comma,
        classify_spec(seq!['@']) == LexKind::At,
        classify_spec(seq!['`']) == LexKind::Backquote,
        classify_spec(seq!['\'']) == LexKind::SingleQuote,
        classify_spec(seq!['#', 't']) == LexKind::True(true),
        classify_spec(seq!['#', 'f']) == LexKind::False(false),
        classify_spec(seq!['\n']) == LexKind::Newline,
        classify_spec(seq!['\t']) == LexKind::Tab,
        classify_spec(seq!['"', '"']) == LexKind::Str(seq!['"', '"']),
        classify_spec(seq!['7']) == LexKind::Number(7),
        classify_spec(seq![';']) == LexKind::Comment(seq![';']),
        classify_spec(seq![' ']) == LexKind::Whitespace(seq![' ']),
        classify_spec(seq!['a']) == LexKind::Atom(seq!['a']),
{
    assert(digits_val(seq!['7']) == 7) by {
        assert(seq!['7'].drop_last() =~= Seq::<char>::empty());
        assert(digits_val(Seq::<char>::empty()) == 0);
        assert(seq!['7'].last() == '7');
        assert(digit_val('7') == 7);
    };
}

} // verus!
