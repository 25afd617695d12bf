//! The scanner: characters to tokens, one token per call.

use vstd::prelude::*;
use crate::error::{Error, SpecError};
use crate::token::{SpecToken, Token};

verus! {

/// White space: the code points that carry the Unicode property `White_Space`.
pub open spec fn is_space(c: char) -> bool {
    let n = c as u32;
    ||| 0x09 <= n <= 0x0D
    ||| n == 0x20
    ||| n == 0x85
    ||| n == 0xA0
    ||| n == 0x1680
    ||| 0x2000 <= n <= 0x200A
    ||| n == 0x2028
    ||| n == 0x2029
    ||| n == 0x202F
    ||| n == 0x205F
    ||| n == 0x3000
}

/// The ten decimal digits.
pub open spec fn is_digit(c: char) -> bool {
    '0' <= c <= '9'
}

/// The 52 letters of ASCII.
pub open spec fn is_alpha(c: char) -> bool {
    'a' <= c <= 'z' || 'A' <= c <= 'Z'
}

/// What a name may hold after its first letter.
pub open spec fn is_name_char(c: char) -> bool {
    is_alpha(c) || is_digit(c) || c == '_'
}

/// The three kinds of run that the scanner reads greedily.
#[derive(Clone, Copy, Debug, PartialEq, Eq, Structural)]
pub enum CharClass {
    Space,
    Digit,
    Name,
}

impl CharClass {
    pub open spec fn has(self, c: char) -> bool {
        match self {
            CharClass::Space => is_space(c),
            CharClass::Digit => is_digit(c),
            CharClass::Name => is_name_char(c),
        }
    }
}

/// Where the longest run of `class` that starts at `from` ends: the first
/// index at or after `from` that is outside the text or holds a character of
/// another class.
pub open spec fn run_end(text: Seq<char>, from: int, class: CharClass) -> int
    decreases text.len() - from,
{
    if 0 <= from < text.len() && class.has(text[from]) {
        run_end(text, from + 1, class)
    } else {
        from
    }
}

/// The value of one decimal digit.
pub open spec fn digit_value(c: char) -> int {
    c as int - '0' as int
}

/// The number that a sequence of decimal digits writes, leading zeros allowed.
pub open spec fn decimal(digits: Seq<char>) -> int
    decreases digits.len(),
{
    if digits.len() == 0 {
        0
    } else {
        10 * decimal(digits.drop_last()) + digit_value(digits.last())
    }
}

/// The token that a single character stands for, if it is a punctuator.
pub open spec fn punctuator(c: char) -> Option<SpecToken> {
    if c == '+' {
        Some(SpecToken::Plus)
    } else if c == '-' {
        Some(SpecToken::Minus)
    } else if c == '*' {
        Some(SpecToken::Star)
    } else if c == '/' {
        Some(SpecToken::Slash)
    } else if c == '(' {
        Some(SpecToken::LeftParen)
    } else if c == ')' {
        Some(SpecToken::RightParen)
    } else if c == '=' {
        Some(SpecToken::Equal)
    } else if c == ';' {
        Some(SpecToken::SemiColon)
    } else {
        None
    }
}

/// The token for a run of digits, or the error when its value does not fit.
pub open spec fn literal(value: int) -> Result<Option<SpecToken>, SpecError> {
    if value <= i64::MAX {
        Ok(Some(SpecToken::IntegerLiteral(value as i64)))
    } else {
        Err(SpecError::LiteralOutOfRange)
    }
}

/// One step of scanning: what was found, and where the next step starts.
pub struct Scan {
    pub token: Result<Option<SpecToken>, SpecError>,
    pub next: int,
}

/// Scanning `text` from index `from`.
///
/// White space is skipped. At the end of the text there is no token. A digit
/// starts a literal that takes every digit that follows; a letter starts a
/// name that takes every letter, digit and `_` that follows; a punctuator is
/// its own token. Any other character is consumed and yields no token, as the
/// end of the text does.
pub open spec fn scan(text: Seq<char>, from: int) -> Scan {
    let at = run_end(text, from, CharClass::Space);
    if !(0 <= at < text.len()) {
        Scan { token: Ok(None), next: at }
    } else if is_digit(text[at]) {
        let end = run_end(text, at, CharClass::Digit);
        Scan { token: literal(decimal(text.subrange(at, end))), next: end }
    } else if is_alpha(text[at]) {
        let end = run_end(text, at, CharClass::Name);
        Scan { token: Ok(Some(SpecToken::Identifier(text.subrange(at, end)))), next: end }
    } else {
        Scan { token: Ok(punctuator(text[at])), next: at + 1 }
    }
}

/// Whether nothing but white space is left from `from` on.
pub open spec fn only_space_left(text: Seq<char>, from: int) -> bool {
    run_end(text, from, CharClass::Space) >= text.len()
}

/// The view of what [`Scanner::get_next_token`] returns.
pub open spec fn view_of_scanned(r: Result<Option<Token>, Error>) -> Result<
    Option<SpecToken>,
    SpecError,
> {
    match r {
        Ok(Some(t)) => Ok(Some(t@)),
        Ok(None) => Ok(None),
        Err(e) => Err(e@),
    }
}

/// A run never ends before its start nor, when it starts inside the text,
/// after the end of the text. It holds only characters of its class, and the
/// character after it, if there is one, is of another class.
pub proof fn lemma_run_end(text: Seq<char>, from: int, class: CharClass)
    ensures
        from <= run_end(text, from, class),
        from <= text.len() ==> run_end(text, from, class) <= text.len(),
        forall|k: int| from <= k < run_end(text, from, class) ==> class.has(#[trigger] text[k]),
        0 <= run_end(text, from, class) < text.len() ==> !class.has(
            text[run_end(text, from, class)],
        ),
    decreases text.len() - from,
{
    if 0 <= from < text.len() && class.has(text[from]) {
        lemma_run_end(text, from + 1, class);
    }
}

/// Scanning never moves backwards and never leaves the text; a step that
/// yields a token, or fails on a literal, consumes at least one character.
pub proof fn lemma_scan_advances(text: Seq<char>, from: int)
    ensures
        from <= scan(text, from).next,
        from <= text.len() ==> scan(text, from).next <= text.len(),
        !(scan(text, from).token matches Ok(None)) ==> from < scan(text, from).next,
{
    let at = run_end(text, from, CharClass::Space);
    lemma_run_end(text, from, CharClass::Space);
    if 0 <= at < text.len() {
        lemma_run_end(text, at, CharClass::Digit);
        lemma_run_end(text, at, CharClass::Name);
    }
}

/// A run that starts where a run of the same class ends is empty.
pub proof fn lemma_run_end_twice(text: Seq<char>, from: int, class: CharClass)
    ensures
        run_end(text, run_end(text, from, class), class) == run_end(text, from, class),
    decreases text.len() - from,
{
    if 0 <= from < text.len() && class.has(text[from]) {
        lemma_run_end_twice(text, from + 1, class);
    }
}

/// White space before a token does not matter: scanning from an index gives
/// what scanning from the end of the white space at that index gives.
pub proof fn lemma_scan_skips_space(text: Seq<char>, from: int)
    ensures
        scan(text, from) == scan(text, run_end(text, from, CharClass::Space)),
        only_space_left(text, from) == only_space_left(
            text,
            run_end(text, from, CharClass::Space),
        ),
{
    lemma_run_end_twice(text, from, CharClass::Space);
}

/// A sequence of digits writes a number that is not negative, and a digit
/// more never makes it smaller.
pub proof fn lemma_decimal_bounds(digits: Seq<char>)
    requires
        forall|k: int| 0 <= k < digits.len() ==> is_digit(#[trigger] digits[k]),
    ensures
        0 <= decimal(digits),
        digits.len() > 0 ==> decimal(digits.drop_last()) <= decimal(digits),
    decreases digits.len(),
{
    if digits.len() > 0 {
        lemma_decimal_bounds(digits.drop_last());
    }
}

/// Whether `c` is white space.
pub fn is_whitespace(c: char) -> (b: bool)
    ensures
        b == is_space(c),
{
    let n: u32 = c as u32;
    (0x09 <= n && n <= 0x0D) || n == 0x20 || n == 0x85 || n == 0xA0 || n == 0x1680 || (0x2000 <= n
        && n <= 0x200A) || n == 0x2028 || n == 0x2029 || n == 0x202F || n == 0x205F || n == 0x3000
}

/// Whether `c` is a letter of ASCII.
pub fn is_ascii_alpha(c: char) -> (b: bool)
    ensures
        b == is_alpha(c),
{
    ('a' <= c && c <= 'z') || ('A' <= c && c <= 'Z')
}

/// Whether `c` is a decimal digit.
pub fn is_decimal_digit(c: char) -> (b: bool)
    ensures
        b == is_digit(c),
{
    '0' <= c && c <= '9'
}

/// A cursor over the characters of a source text.
#[derive(Debug)]
pub struct Scanner {
    chars: Vec<char>,
    cursor: usize,
}

impl Scanner {
    #[verifier::type_invariant]
    spec fn inside(self) -> bool {
        self.cursor <= self.chars.len()
    }

    /// The text being scanned.
    pub closed spec fn input(&self) -> Seq<char> {
        self.chars@
    }

    /// The index of the next character to read: from zero to the length of
    /// the text, as every function of the scanner states.
    pub closed spec fn offset(&self) -> int {
        self.cursor as int
    }

    /// A scanner at the start of `source`.
    pub fn new(source: String) -> (scanner: Scanner)
        ensures
            scanner.input() == source@,
            scanner.offset() == 0,
            0 <= scanner.offset() <= scanner.input().len(),
    {
        let mut chars: Vec<char> = Vec::new();
        let it = source.as_str().chars();
        for c in iter: it
            invariant
                chars@ == iter.seq().take(iter.index() as int),
                iter.seq() == source@,
        {
            chars.push(c);
        }
        Scanner { chars, cursor: 0 }
    }

    /// Skips white space and says whether the text is used up.
    pub fn empty(&mut self) -> (b: bool)
        ensures
            final(self).input() == old(self).input(),
            final(self).offset() == run_end(
                old(self).input(),
                old(self).offset(),
                CharClass::Space,
            ),
            b == only_space_left(old(self).input(), old(self).offset()),
            b == (final(self).offset() == final(self).input().len()),
            0 <= old(self).offset() <= final(self).offset() <= final(self).input().len(),
    {
        proof {
            use_type_invariant(&*self);
            lemma_run_end(self.chars@, self.cursor as int, CharClass::Space);
        }
        self.skip_whitespace();
        self.done()
    }

    /// Skips white space and reads one token, as [`scan`] says.
    ///
    /// `Ok(None)` comes at the end of the text and also for a character that
    /// starts no token; such a character is consumed.
    pub fn get_next_token(&mut self) -> (r: Result<Option<Token>, Error>)
        ensures
            final(self).input() == old(self).input(),
            final(self).offset() == scan(old(self).input(), old(self).offset()).next,
            view_of_scanned(r) == scan(old(self).input(), old(self).offset()).token,
            0 <= old(self).offset() <= final(self).offset() <= final(self).input().len(),
    {
        proof {
            use_type_invariant(&*self);
            lemma_scan_advances(self.chars@, self.cursor as int);
        }
        self.skip_whitespace();
        if self.done() {
            return Ok(None);
        }
        let c: char = self.chars[self.cursor];
        if is_decimal_digit(c) {
            match self.integer_literal() {
                Ok(token) => Ok(Some(token)),
                Err(e) => Err(e),
            }
        } else if is_ascii_alpha(c) {
            Ok(Some(self.identifier()))
        } else {
            self.cursor += 1;
            Ok(
                if c == '+' {
                    Some(Token::Plus)
                } else if c == '-' {
                    Some(Token::Minus)
                } else if c == '*' {
                    Some(Token::Star)
                } else if c == '/' {
                    Some(Token::Slash)
                } else if c == '(' {
                    Some(Token::LeftParen)
                } else if c == ')' {
                    Some(Token::RightParen)
                } else if c == '=' {
                    Some(Token::Equal)
                } else if c == ';' {
                    Some(Token::SemiColon)
                } else {
                    None
                },
            )
        }
    }

    fn done(&self) -> (b: bool)
        ensures
            b == (self.cursor >= self.chars.len()),
    {
        self.cursor >= self.chars.len()
    }

    fn skip_whitespace(&mut self)
        ensures
            final(self).chars == old(self).chars,
            final(self).cursor == run_end(
                old(self).chars@,
                old(self).cursor as int,
                CharClass::Space,
            ),
            old(self).cursor <= final(self).cursor,
    {
        while self.cursor < self.chars.len() && is_whitespace(self.chars[self.cursor])
            invariant
                self.chars == old(self).chars,
                old(self).cursor <= self.cursor,
                run_end(self.chars@, self.cursor as int, CharClass::Space) == run_end(
                    old(self).chars@,
                    old(self).cursor as int,
                    CharClass::Space,
                ),
            decreases self.chars.len() - self.cursor,
        {
            self.cursor += 1;
        }
    }

    fn integer_literal(&mut self) -> (r: Result<Token, Error>)
        requires
            old(self).cursor < old(self).chars.len(),
        ensures
            final(self).chars == old(self).chars,
            final(self).cursor == run_end(
                old(self).chars@,
                old(self).cursor as int,
                CharClass::Digit,
            ),
            old(self).cursor <= final(self).cursor,
            match r {
                Ok(t) => Ok::<Option<SpecToken>, SpecError>(Some(t@)),
                Err(e) => Err(e@),
            } == literal(
                decimal(old(self).chars@.subrange(old(self).cursor as int, final(self).cursor as int)),
            ),
    {
        let start: usize = self.cursor;
        let mut value: i64 = 0;
        let mut fits: bool = true;
        while self.cursor < self.chars.len() && is_decimal_digit(self.chars[self.cursor])
            invariant
                self.chars == old(self).chars,
                start == old(self).cursor,
                start <= self.cursor <= self.chars.len(),
                run_end(self.chars@, self.cursor as int, CharClass::Digit) == run_end(
                    self.chars@,
                    start as int,
                    CharClass::Digit,
                ),
                forall|k: int| start <= k < self.cursor ==> is_digit(#[trigger] self.chars@[k]),
                fits ==> value == decimal(self.chars@.subrange(start as int, self.cursor as int)),
                !fits ==> decimal(self.chars@.subrange(start as int, self.cursor as int))
                    > i64::MAX,
                0 <= value,
            decreases self.chars.len() - self.cursor,
        {
            let c: char = self.chars[self.cursor];
            let d: i64 = (c as u32 - 48) as i64;
            proof {
                let shorter = self.chars@.subrange(start as int, self.cursor as int);
                let longer = self.chars@.subrange(start as int, self.cursor as int + 1);
                assert(longer.drop_last() == shorter);
                assert(longer.last() == c);
                lemma_decimal_bounds(longer);
            }
            if fits {
                match value.checked_mul(10) {
                    Some(tens) => match tens.checked_add(d) {
                        Some(sum) => {
                            value = sum;
                        },
                        None => {
                            fits = false;
                        },
                    },
                    None => {
                        fits = false;
                    },
                }
            }
            self.cursor += 1;
        }
        if fits {
            Ok(Token::IntegerLiteral(value))
        } else {
            Err(Error::LiteralOutOfRange)
        }
    }

    fn identifier(&mut self) -> (t: Token)
        requires
            old(self).cursor < old(self).chars.len(),
        ensures
            final(self).chars == old(self).chars,
            final(self).cursor == run_end(
                old(self).chars@,
                old(self).cursor as int,
                CharClass::Name,
            ),
            old(self).cursor <= final(self).cursor,
            t@ == SpecToken::Identifier(
                old(self).chars@.subrange(old(self).cursor as int, final(self).cursor as int),
            ),
    {
        let start: usize = self.cursor;
        let mut name = String::new();
        while self.cursor < self.chars.len() && (is_ascii_alpha(self.chars[self.cursor])
            || is_decimal_digit(self.chars[self.cursor]) || self.chars[self.cursor] == '_')
            invariant
                self.chars == old(self).chars,
                start == old(self).cursor,
                start <= self.cursor <= self.chars.len(),
                run_end(self.chars@, self.cursor as int, CharClass::Name) == run_end(
                    self.chars@,
                    start as int,
                    CharClass::Name,
                ),
                name@ == self.chars@.subrange(start as int, self.cursor as int),
            decreases self.chars.len() - self.cursor,
        {
            name.push(self.chars[self.cursor]);
            self.cursor += 1;
        }
        Token::Identifier(name)
    }
}

/// Taken on trust of `String::push` of the standard library, which appends
/// the given character to the end of the string: the characters of the
/// string after the call are those before it, followed by `ch`.
pub assume_specification[ String::push ](s: &mut String, ch: char)
    ensures
        final(s)@ == old(s)@.push(ch),
;

} // verus!
