//! The scanner: classifies raw source text, one token per call.

use vstd::prelude::*;
use vstd::std_specs::iter::IteratorSpec;

verus! {

/// One lexical token: the smallest classified unit of source text.
#[derive(Debug, PartialEq, Clone)]
pub enum Token {
    /// An unrecognized character; a legitimate token value, not a failure.
    Illegal,
    /// The end-of-input marker, returned on every call past the end.
    EOF,
    /// An identifier, carrying its literal name.
    Ident(String),
    /// An integer literal, carrying its parsed value.
    Int(i32),
    // Operators
    Assign,
    Plus,
    Minus,
    Bang,
    Asterisk,
    Slash,
    LessThan,
    GreaterThan,
    Equal,
    NotEqual,
    // Delimiters
    Comma,
    Semicolon,
    LParen,
    RParen,
    LBrace,
    RBrace,
    // Keywords
    Function,
    Let,
    True,
    False,
    If,
    Else,
    Return,
}

/// Model of a token: payloads as mathematical values.
pub enum SpecToken {
    Illegal,
    EOF,
    Ident(Seq<char>),
    Int(int),
    Assign,
    Plus,
    Minus,
    Bang,
    Asterisk,
    Slash,
    LessThan,
    GreaterThan,
    Equal,
    NotEqual,
    Comma,
    Semicolon,
    LParen,
    RParen,
    LBrace,
    RBrace,
    Function,
    Let,
    True,
    False,
    If,
    Else,
    Return,
}

impl View for Token {
    type V = SpecToken;

    open spec fn view(&self) -> SpecToken {
        match self {
            Token::Illegal => SpecToken::Illegal,
            Token::EOF => SpecToken::EOF,
            Token::Ident(name) => SpecToken::Ident(name@),
            Token::Int(value) => SpecToken::Int(*value as int),
            Token::Assign => SpecToken::Assign,
            Token::Plus => SpecToken::Plus,
            Token::Minus => SpecToken::Minus,
            Token::Bang => SpecToken::Bang,
            Token::Asterisk => SpecToken::Asterisk,
            Token::Slash => SpecToken::Slash,
            Token::LessThan => SpecToken::LessThan,
            Token::GreaterThan => SpecToken::GreaterThan,
            Token::Equal => SpecToken::Equal,
            Token::NotEqual => SpecToken::NotEqual,
            Token::Comma => SpecToken::Comma,
            Token::Semicolon => SpecToken::Semicolon,
            Token::LParen => SpecToken::LParen,
            Token::RParen => SpecToken::RParen,
            Token::LBrace => SpecToken::LBrace,
            Token::RBrace => SpecToken::RBrace,
            Token::Function => SpecToken::Function,
            Token::Let => SpecToken::Let,
            Token::True => SpecToken::True,
            Token::False => SpecToken::False,
            Token::If => SpecToken::If,
            Token::Else => SpecToken::Else,
            Token::Return => SpecToken::Return,
        }
    }
}

/// Whitespace skipped between tokens: space, tab, newline, carriage return.
pub open spec fn is_ws_char(c: char) -> bool {
    c == ' ' || c == '\t' || c == '\n' || c == '\r'
}

/// Characters that may form an identifier: letters and underscore.
/// Digits are deliberately not part of the identifier alphabet.
pub open spec fn is_letter_char(c: char) -> bool {
    ('a' as u32 <= c as u32 && c as u32 <= 'z' as u32) || ('A' as u32 <= c as u32 && c as u32
        <= 'Z' as u32) || c == '_'
}

/// Decimal digit characters.
pub open spec fn is_digit_char(c: char) -> bool {
    '0' as u32 <= c as u32 && c as u32 <= '9' as u32
}

/// Numeric value of a decimal digit character.
pub open spec fn digit_val(c: char) -> int {
    c as u32 - '0' as u32
}

/// First position at or after `i` whose character is not whitespace.
pub open spec fn skip_ws_from(s: Seq<char>, i: int) -> int
    decreases s.len() - i,
        when 0 <= i
{
    if i < s.len() && is_ws_char(s[i]) {
        skip_ws_from(s, i + 1)
    } else {
        i
    }
}

/// End of the run of identifier characters beginning at `i`.
pub open spec fn ident_end_from(s: Seq<char>, i: int) -> int
    decreases s.len() - i,
        when 0 <= i
{
    if i < s.len() && is_letter_char(s[i]) {
        ident_end_from(s, i + 1)
    } else {
        i
    }
}

/// End of the run of digit characters beginning at `i`.
pub open spec fn digit_end_from(s: Seq<char>, i: int) -> int
    decreases s.len() - i,
        when 0 <= i
{
    if i < s.len() && is_digit_char(s[i]) {
        digit_end_from(s, i + 1)
    } else {
        i
    }
}

/// Numeric value of a run of decimal digits, most significant first.
pub open spec fn digits_val(ds: Seq<char>) -> int
    decreases ds.len(),
{
    if ds.len() == 0 {
        0
    } else {
        digits_val(ds.drop_last()) * 10 + digit_val(ds.last())
    }
}

/// The fixed keyword table: classify a completed identifier run.
pub open spec fn keyword_of(w: Seq<char>) -> SpecToken {
    if w == seq!['f', 'n'] {
        SpecToken::Function
    } else if w == seq!['l', 'e', 't'] {
        SpecToken::Let
    } else if w == seq!['t', 'r', 'u', 'e'] {
        SpecToken::True
    } else if w == seq!['f', 'a', 'l', 's', 'e'] {
        SpecToken::False
    } else if w == seq!['i', 'f'] {
        SpecToken::If
    } else if w == seq!['e', 'l', 's', 'e'] {
        SpecToken::Else
    } else if w == seq!['r', 'e', 't', 'u', 'r', 'n'] {
        SpecToken::Return
    } else {
        SpecToken::Ident(w)
    }
}

/// The token produced by one scan step starting at position `i`.
pub open spec fn spec_token_at(s: Seq<char>, i: int) -> SpecToken {
    let j = skip_ws_from(s, i);
    if j >= s.len() {
        SpecToken::EOF
    } else {
        let c = s[j];
        if c == '=' {
            if j + 1 < s.len() && s[j + 1] == '=' {
                SpecToken::Equal
            } else {
                SpecToken::Assign
            }
        } else if c == '!' {
            if j + 1 < s.len() && s[j + 1] == '=' {
                SpecToken::NotEqual
            } else {
                SpecToken::Bang
            }
        } else if c == ';' {
            SpecToken::Semicolon
        } else if c == '(' {
            SpecToken::LParen
        } else if c == ')' {
            SpecToken::RParen
        } else if c == '<' {
            SpecToken::LessThan
        } else if c == '>' {
            SpecToken::GreaterThan
        } else if c == ',' {
            SpecToken::Comma
        } else if c == '+' {
            SpecToken::Plus
        } else if c == '-' {
            SpecToken::Minus
        } else if c == '/' {
            SpecToken::Slash
        } else if c == '*' {
            SpecToken::Asterisk
        } else if c == '{' {
            SpecToken::LBrace
        } else if c == '}' {
            SpecToken::RBrace
        } else if is_letter_char(c) {
            keyword_of(s.subrange(j, ident_end_from(s, j)))
        } else if is_digit_char(c) {
            SpecToken::Int(digits_val(s.subrange(j, digit_end_from(s, j))))
        } else {
            SpecToken::Illegal
        }
    }
}

/// The scan position after producing the token at position `i`.
pub open spec fn spec_next_pos(s: Seq<char>, i: int) -> int {
    let j = skip_ws_from(s, i);
    if j >= s.len() {
        s.len() as int
    } else {
        let c = s[j];
        if (c == '=' || c == '!') && j + 1 < s.len() && s[j + 1] == '=' {
            j + 2
        } else if is_letter_char(c) {
            ident_end_from(s, j)
        } else if is_digit_char(c) {
            digit_end_from(s, j)
        } else {
            j + 1
        }
    }
}

/// The token starting at position `i` is not an integer literal whose value
/// overflows `i32`; such a literal is a fatal input error for the scanner.
pub open spec fn int_token_fits(s: Seq<char>, i: int) -> bool {
    let j = skip_ws_from(s, i);
    (j < s.len() && is_digit_char(s[j])) ==> digits_val(s.subrange(j, digit_end_from(s, j)))
        <= i32::MAX as int
}

/// No integer literal anywhere in the text overflows `i32`.
pub open spec fn int_literals_fit(s: Seq<char>) -> bool {
    forall|i: int| 0 <= i <= s.len() ==> #[trigger] int_token_fits(s, i)
}

/// Scanning a token from within the text makes progress: the position
/// after it lies past the skipped whitespace and within the text.
pub proof fn lemma_next_pos_bounds(s: Seq<char>, i: int)
    requires
        0 <= i <= s.len(),
    ensures
        i <= skip_ws_from(s, i),
        spec_next_pos(s, i) <= s.len(),
        !(spec_token_at(s, i) is EOF) ==> skip_ws_from(s, i) < spec_next_pos(s, i),
{
    lemma_skip_ws_bounds(s, i);
    let j = skip_ws_from(s, i);
    if j < s.len() {
        let c = s[j];
        if is_letter_char(c) {
            lemma_ident_end_bounds(s, j + 1);
            assert(ident_end_from(s, j) == ident_end_from(s, j + 1));
        } else if is_digit_char(c) {
            lemma_digit_end_bounds(s, j + 1);
            assert(digit_end_from(s, j) == digit_end_from(s, j + 1));
        }
    }
}

/// All tokens scanned from position `i` to the end of the text, in order,
/// the end-of-input marker excluded.
pub open spec fn spec_tokens_from(s: Seq<char>, i: int) -> Seq<SpecToken>
    decreases s.len() - i,
        when 0 <= i <= s.len()
        via spec_tokens_from_decreases
{
    if spec_token_at(s, i) is EOF {
        Seq::empty()
    } else {
        seq![spec_token_at(s, i)] + spec_tokens_from(s, spec_next_pos(s, i))
    }
}

#[via_fn]
proof fn spec_tokens_from_decreases(s: Seq<char>, i: int) {
    if 0 <= i <= s.len() {
        lemma_next_pos_bounds(s, i);
    }
}

/// End of input is absorbing: where the scanner classifies the end-of-input
/// token, the position does not move past the text, and every later scan
/// yields the end-of-input token again.
pub proof fn lemma_eof_idempotent(s: Seq<char>, i: int)
    requires
        0 <= i <= s.len(),
        spec_token_at(s, i) is EOF,
    ensures
        spec_next_pos(s, i) == s.len(),
        spec_token_at(s, s.len() as int) is EOF,
        spec_next_pos(s, s.len() as int) == s.len(),
        spec_tokens_from(s, i) == Seq::<SpecToken>::empty(),
{
    lemma_skip_ws_bounds(s, i);
    lemma_skip_ws_bounds(s, s.len() as int);
}

/// Keyword classification: a whole text of identifier characters scans to
/// the token the keyword table assigns it, and to an identifier carrying
/// exactly that text when it matches no keyword.
pub proof fn lemma_keyword_classification(w: Seq<char>)
    requires
        w.len() > 0,
        forall|k: int| 0 <= k < w.len() ==> is_letter_char(#[trigger] w[k]),
    ensures
        spec_token_at(w, 0) == keyword_of(w),
        spec_next_pos(w, 0) == w.len(),
        w != seq!['f', 'n'] && w != seq!['l', 'e', 't'] && w != seq!['t', 'r', 'u', 'e'] && w
            != seq!['f', 'a', 'l', 's', 'e'] && w != seq!['i', 'f'] && w != seq!['e', 'l', 's', 'e']
            && w != seq!['r', 'e', 't', 'u', 'r', 'n'] ==> spec_token_at(w, 0)
            == SpecToken::Ident(w),
{
    assert(is_letter_char(w[0]));
    assert(skip_ws_from(w, 0) == 0);
    lemma_ident_end_bounds(w, 0);
    assert(ident_end_from(w, 0) == w.len());
    assert(w.subrange(0, w.len() as int) =~= w);
}

/// Two-character operator disambiguation: `==` scans as one equality token
/// and `!=` as one inequality token, both consuming two characters, while
/// `=` or `!` not followed by `=` scans as the single-character token.
pub proof fn lemma_two_char_disambiguation(s: Seq<char>, i: int)
    requires
        0 <= i < s.len(),
        !is_ws_char(s[i]),
    ensures
        s[i] == '=' && i + 1 < s.len() && s[i + 1] == '=' ==> spec_token_at(s, i)
            == SpecToken::Equal && spec_next_pos(s, i) == i + 2,
        s[i] == '=' && !(i + 1 < s.len() && s[i + 1] == '=') ==> spec_token_at(s, i)
            == SpecToken::Assign && spec_next_pos(s, i) == i + 1,
        s[i] == '!' && i + 1 < s.len() && s[i + 1] == '=' ==> spec_token_at(s, i)
            == SpecToken::NotEqual && spec_next_pos(s, i) == i + 2,
        s[i] == '!' && !(i + 1 < s.len() && s[i + 1] == '=') ==> spec_token_at(s, i)
            == SpecToken::Bang && spec_next_pos(s, i) == i + 1,
{
    assert(skip_ws_from(s, i) == i);
}

/// The whitespace run ends within the text, at a non-whitespace character
/// or at the end.
pub proof fn lemma_skip_ws_bounds(s: Seq<char>, i: int)
    requires
        0 <= i <= s.len(),
    ensures
        i <= skip_ws_from(s, i) <= s.len(),
        skip_ws_from(s, i) < s.len() ==> !is_ws_char(s[skip_ws_from(s, i)]),
    decreases s.len() - i,
{
    if i < s.len() && is_ws_char(s[i]) {
        lemma_skip_ws_bounds(s, i + 1);
    }
}

/// The identifier run consists of identifier characters and ends at the
/// first character that is not one, or at the end of the text.
pub proof fn lemma_ident_end_bounds(s: Seq<char>, i: int)
    requires
        0 <= i <= s.len(),
    ensures
        i <= ident_end_from(s, i) <= s.len(),
        forall|k: int| i <= k < ident_end_from(s, i) ==> is_letter_char(#[trigger] s[k]),
        ident_end_from(s, i) < s.len() ==> !is_letter_char(s[ident_end_from(s, i)]),
    decreases s.len() - i,
{
    if i < s.len() && is_letter_char(s[i]) {
        lemma_ident_end_bounds(s, i + 1);
    }
}

/// The digit run consists of digits and ends at the first character that
/// is not one, or at the end of the text.
pub proof fn lemma_digit_end_bounds(s: Seq<char>, i: int)
    requires
        0 <= i <= s.len(),
    ensures
        i <= digit_end_from(s, i) <= s.len(),
        forall|k: int| i <= k < digit_end_from(s, i) ==> is_digit_char(#[trigger] s[k]),
        digit_end_from(s, i) < s.len() ==> !is_digit_char(s[digit_end_from(s, i)]),
    decreases s.len() - i,
{
    if i < s.len() && is_digit_char(s[i]) {
        lemma_digit_end_bounds(s, i + 1);
    }
}

/// The value of a digit run is never negative.
pub proof fn lemma_digits_val_nonneg(ds: Seq<char>)
    requires
        forall|k: int| 0 <= k < ds.len() ==> is_digit_char(#[trigger] ds[k]),
    ensures
        digits_val(ds) >= 0,
    decreases ds.len(),
{
    if ds.len() > 0 {
        lemma_digits_val_nonneg(ds.drop_last());
    }
}

/// Dropping digits from the end of a run never increases its value.
pub proof fn lemma_digits_val_prefix(ds: Seq<char>, k: int)
    requires
        forall|j: int| 0 <= j < ds.len() ==> is_digit_char(#[trigger] ds[j]),
        0 <= k <= ds.len(),
    ensures
        digits_val(ds.subrange(0, k)) <= digits_val(ds),
    decreases ds.len(),
{
    if k == ds.len() {
        assert(ds.subrange(0, k) =~= ds);
    } else {
        let shorter = ds.drop_last();
        assert(ds.subrange(0, k) =~= shorter.subrange(0, k));
        lemma_digits_val_prefix(shorter, k);
        lemma_digits_val_nonneg(shorter);
    }
}

/// The scanner: the source text as a sequence of characters, the read
/// cursor, and the lookahead character under the cursor (`None` once the
/// cursor has passed the end of the input).
pub struct Lexer {
    input: Vec<char>,
    read_position: usize,
    ch: Option<char>,
}

impl Lexer {
    /// The source text being scanned.
    pub closed spec fn src(self) -> Seq<char> {
        self.input@
    }

    /// The position of the character the next classification starts from;
    /// the text's length once the input is exhausted.
    pub closed spec fn cursor(self) -> int {
        if self.ch is Some {
            self.read_position - 1
        } else {
            self.src().len() as int
        }
    }

    /// The scanner state is coherent: the lookahead character is the one
    /// under the cursor, and is absent exactly at end of input.
    pub closed spec fn wf(self) -> bool {
        match self.ch {
            Some(c) => 1 <= self.read_position <= self.input@.len() && c == self.input@[self.read_position - 1],
            None => self.read_position == self.input@.len(),
        }
    }

    /// A coherent scanner's cursor lies within its text.
    pub proof fn lemma_cursor_bounds(self)
        requires
            self.wf(),
        ensures
            0 <= self.cursor() <= self.src().len(),
    {
    }

    /// Read the characters of the source text into a vector.
    fn collect_chars(source: &str) -> (out: Vec<char>)
        ensures
            out@ == source@,
    {
        broadcast use vstd::string::axiom_spec_iter, vstd::string::next_postcondition;

        let mut out: Vec<char> = Vec::new();
        let mut it = source.chars();
        loop
            invariant
                it.obeys_prophetic_iter_laws(),
                it.decrease() is Some,
                out@ + it.remaining() == source@,
            ensures
                out@ == source@,
            decreases it.decrease()->0,
        {
            let ghost prev = it;
            match it.next() {
                Some(c) => {
                    proof {
                        assert((out@ + seq![c]) + it.remaining() =~= out@ + prev.remaining());
                    }
                    out.push(c);
                },
                None => {
                    proof {
                        assert(out@ =~= out@ + it.remaining());
                    }
                    break ;
                },
            }
        }
        out
    }

    /// Construct a scanner over a complete source string, with the cursor
    /// on the first character.
    pub fn new(source: String) -> (l: Lexer)
        ensures
            l.wf(),
            l.src() == source@,
            l.cursor() == 0,
    {
        let mut l = Lexer {
            input: Self::collect_chars(source.as_str()),
            read_position: 0,
            ch: None,
        };
        l.read_char();
        l
    }

    /// Advance the cursor by one character, loading the new lookahead;
    /// a no-op once the input is exhausted.
    fn read_char(&mut self)
        requires
            old(self).read_position <= old(self).input@.len(),
        ensures
            final(self).input == old(self).input,
            old(self).read_position < old(self).input@.len() ==> final(self).ch == Some(
                old(self).input@[old(self).read_position as int],
            ) && final(self).read_position == old(self).read_position + 1,
            old(self).read_position >= old(self).input@.len() ==> final(self).ch is None
                && final(self).read_position == old(self).read_position,
            old(self).wf() ==> final(self).wf() && final(self).cursor() == (if old(self).cursor()
                < old(self).src().len() {
                old(self).cursor() + 1
            } else {
                old(self).cursor()
            }),
    {
        if self.read_position < self.input.len() {
            self.ch = Some(self.input[self.read_position]);
            self.read_position = self.read_position + 1;
        } else {
            self.ch = None;
        }
    }

    /// A bounded single-character look past the cursor; consumes nothing.
    fn peek(&self) -> (c: Option<char>)
        requires
            self.wf(),
        ensures
            c == (if self.cursor() + 1 < self.src().len() {
                Some(self.src()[self.cursor() + 1])
            } else {
                None::<char>
            }),
    {
        if self.read_position < self.input.len() {
            Some(self.input[self.read_position])
        } else {
            None
        }
    }

    /// Skip the run of whitespace under the cursor.
    fn skip_whitespace(&mut self)
        requires
            old(self).wf(),
        ensures
            final(self).wf(),
            final(self).src() == old(self).src(),
            final(self).cursor() == skip_ws_from(old(self).src(), old(self).cursor()),
    {
        let ghost src0 = self.src();
        let ghost c0 = self.cursor();
        while self.ch.is_some() && is_ws(self.ch.unwrap())
            invariant
                self.wf(),
                self.src() == src0,
                0 <= c0 <= self.cursor() <= src0.len(),
                skip_ws_from(src0, self.cursor()) == skip_ws_from(src0, c0),
            decreases src0.len() - self.cursor(),
        {
            self.read_char();
        }
    }

    /// Whether a character may appear in an identifier.
    fn is_ident_char(c: char) -> (r: bool)
        ensures
            r == is_letter_char(c),
    {
        let n = c as u32;
        ('a' as u32 <= n && n <= 'z' as u32) || ('A' as u32 <= n && n <= 'Z' as u32) || c == '_'
    }

    /// Whether a character is a decimal digit.
    fn is_digit(c: char) -> (r: bool)
        ensures
            r == is_digit_char(c),
    {
        let n = c as u32;
        '0' as u32 <= n && n <= '9' as u32
    }

    /// Consume the maximal run of identifier characters under the cursor.
    fn read_ident(&mut self) -> (out: Vec<char>)
        requires
            old(self).wf(),
        ensures
            final(self).wf(),
            final(self).src() == old(self).src(),
            final(self).cursor() == ident_end_from(old(self).src(), old(self).cursor()),
            out@ == old(self).src().subrange(
                old(self).cursor(),
                ident_end_from(old(self).src(), old(self).cursor()),
            ),
    {
        let ghost src0 = self.src();
        let ghost c0 = self.cursor();
        let mut out: Vec<char> = Vec::new();
        proof {
            assert(out@ =~= src0.subrange(c0, c0));
        }
        while self.ch.is_some() && Self::is_ident_char(self.ch.unwrap())
            invariant
                self.wf(),
                self.src() == src0,
                0 <= c0 <= self.cursor() <= src0.len(),
                ident_end_from(src0, self.cursor()) == ident_end_from(src0, c0),
                out@ == src0.subrange(c0, self.cursor()),
            decreases src0.len() - self.cursor(),
        {
            out.push(self.ch.unwrap());
            proof {
                assert(out@ =~= src0.subrange(c0, self.cursor() + 1));
            }
            self.read_char();
        }
        out
    }

    /// Consume the maximal run of digits under the cursor and parse it.
    fn read_int(&mut self) -> (n: i32)
        requires
            old(self).wf(),
            old(self).cursor() < old(self).src().len(),
            is_digit_char(old(self).src()[old(self).cursor()]),
            digits_val(
                old(self).src().subrange(
                    old(self).cursor(),
                    digit_end_from(old(self).src(), old(self).cursor()),
                ),
            ) <= i32::MAX as int,
        ensures
            final(self).wf(),
            final(self).src() == old(self).src(),
            final(self).cursor() == digit_end_from(old(self).src(), old(self).cursor()),
            n as int == digits_val(
                old(self).src().subrange(
                    old(self).cursor(),
                    digit_end_from(old(self).src(), old(self).cursor()),
                ),
            ),
    {
        let ghost src0 = self.src();
        let ghost c0 = self.cursor();
        let ghost end = digit_end_from(src0, c0);
        proof {
            lemma_digit_end_bounds(src0, c0);
            assert(src0.subrange(c0, c0) =~= Seq::<char>::empty());
        }
        let mut n: i32 = 0;
        while self.ch.is_some() && Self::is_digit(self.ch.unwrap())
            invariant
                self.wf(),
                self.src() == src0,
                0 <= c0 <= self.cursor() <= src0.len(),
                digit_end_from(src0, self.cursor()) == end,
                end == digit_end_from(src0, c0),
                digits_val(src0.subrange(c0, end)) <= i32::MAX as int,
                n as int == digits_val(src0.subrange(c0, self.cursor())),
                n >= 0,
            decreases src0.len() - self.cursor(),
        {
            let c = self.ch.unwrap();
            let d = c as u32 - '0' as u32;
            let ghost cur = self.cursor();
            proof {
                assert(is_digit_char(src0[cur]));
                lemma_digit_end_bounds(src0, cur + 1);
                assert(digit_end_from(src0, cur) == digit_end_from(src0, cur + 1));
                assert(cur < end);
                assert(src0.subrange(c0, cur + 1).drop_last() =~= src0.subrange(c0, cur));
                assert(src0.subrange(c0, cur + 1).last() == src0[cur]);
                assert(digits_val(src0.subrange(c0, cur + 1)) == n * 10 + d);
                let run = src0.subrange(c0, end);
                lemma_digit_end_bounds(src0, c0);
                assert forall|j: int| 0 <= j < run.len() implies is_digit_char(
                    #[trigger] run[j],
                ) by {
                    assert(run[j] == src0[c0 + j]);
                    assert(is_digit_char(src0[c0 + j]));
                }
                assert(run.subrange(0, cur + 1 - c0) =~= src0.subrange(c0, cur + 1));
                lemma_digits_val_prefix(run, cur + 1 - c0);
                assert(n * 10 + d <= i32::MAX as int);
            }
            n = n * 10 + (d as i32);
            self.read_char();
        }
        n
    }

    /// Classify and return the next token in the stream, advancing past it;
    /// every call after end-of-input keeps returning the end-of-input token.
    pub fn next_token(&mut self) -> (t: Token)
        requires
            old(self).wf(),
            int_token_fits(old(self).src(), old(self).cursor()),
        ensures
            final(self).wf(),
            final(self).src() == old(self).src(),
            t@ == spec_token_at(old(self).src(), old(self).cursor()),
            final(self).cursor() == spec_next_pos(old(self).src(), old(self).cursor()),
    {
        self.skip_whitespace();
        let token: Token;
        match self.ch {
            None => {
                token = Token::EOF;
            },
            Some(c) => {
                if c == '=' {
                    let p = self.peek();
                    if p.is_some() && p.unwrap() == '=' {
                        self.read_char();
                        token = Token::Equal;
                    } else {
                        token = Token::Assign;
                    }
                } else if c == '!' {
                    let p = self.peek();
                    if p.is_some() && p.unwrap() == '=' {
                        self.read_char();
                        token = Token::NotEqual;
                    } else {
                        token = Token::Bang;
                    }
                } else if c == ';' {
                    token = Token::Semicolon;
                } else if c == '(' {
                    token = Token::LParen;
                } else if c == ')' {
                    token = Token::RParen;
                } else if c == '<' {
                    token = Token::LessThan;
                } else if c == '>' {
                    token = Token::GreaterThan;
                } else if c == ',' {
                    token = Token::Comma;
                } else if c == '+' {
                    token = Token::Plus;
                } else if c == '-' {
                    token = Token::Minus;
                } else if c == '/' {
                    token = Token::Slash;
                } else if c == '*' {
                    token = Token::Asterisk;
                } else if c == '{' {
                    token = Token::LBrace;
                } else if c == '}' {
                    token = Token::RBrace;
                } else if Self::is_ident_char(c) {
                    let w = self.read_ident();
                    return classify_word(w);
                } else if Self::is_digit(c) {
                    let v = self.read_int();
                    return Token::Int(v);
                } else {
                    token = Token::Illegal;
                }
            },
        }
        self.read_char();
        token
    }
}

/// Whether a character is whitespace the scanner skips.
fn is_ws(c: char) -> (r: bool)
    ensures
        r == is_ws_char(c),
{
    c == ' ' || c == '\t' || c == '\n' || c == '\r'
}

/// Builds the string holding exactly the given characters. Relies on
/// `String`'s `FromIterator` implementation, which collects the characters
/// of the iterator in order.
#[verifier::external_body]
fn string_from_chars(cs: &Vec<char>) -> (s: String)
    ensures
        s@ == cs@,
{
    cs.iter().collect()
}

/// Classify a completed identifier run against the keyword table.
fn classify_word(w: Vec<char>) -> (t: Token)
    ensures
        t@ == keyword_of(w@),
{
    if w.len() == 2 && w[0] == 'f' && w[1] == 'n' {
        proof {
            assert(w@ =~= seq!['f', 'n']);
        }
        return Token::Function;
    }
    if w.len() == 3 && w[0] == 'l' && w[1] == 'e' && w[2] == 't' {
        proof {
            assert(w@ =~= seq!['l', 'e', 't']);
        }
        return Token::Let;
    }
    if w.len() == 4 && w[0] == 't' && w[1] == 'r' && w[2] == 'u' && w[3] == 'e' {
        proof {
            assert(w@ =~= seq!['t', 'r', 'u', 'e']);
        }
        return Token::True;
    }
    if w.len() == 5 && w[0] == 'f' && w[1] == 'a' && w[2] == 'l' && w[3] == 's' && w[4] == 'e' {
        proof {
            assert(w@ =~= seq!['f', 'a', 'l', 's', 'e']);
        }
        return Token::False;
    }
    if w.len() == 2 && w[0] == 'i' && w[1] == 'f' {
        proof {
            assert(w@ =~= seq!['i', 'f']);
        }
        return Token::If;
    }
    if w.len() == 4 && w[0] == 'e' && w[1] == 'l' && w[2] == 's' && w[3] == 'e' {
        proof {
            assert(w@ =~= seq!['e', 'l', 's', 'e']);
        }
        return Token::Else;
    }
    if w.len() == 6 && w[0] == 'r' && w[1] == 'e' && w[2] == 't' && w[3] == 'u' && w[4] == 'r'
        && w[5] == 'n' {
        proof {
            assert(w@ =~= seq!['r', 'e', 't', 'u', 'r', 'n']);
        }
        return Token::Return;
    }
    proof {
        assert(w@ != seq!['f', 'n']);
        assert(w@ != seq!['l', 'e', 't']);
        assert(w@ != seq!['t', 'r', 'u', 'e']);
        assert(w@ != seq!['f', 'a', 'l', 's', 'e']);
        assert(w@ != seq!['i', 'f']);
        assert(w@ != seq!['e', 'l', 's', 'e']);
        assert(w@ != seq!['r', 'e', 't', 'u', 'r', 'n']);
    }
    Token::Ident(string_from_chars(&w))
}

} // verus!
