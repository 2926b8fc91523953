use vstd::prelude::*;
use vstd::string::*;
use crate::parser::{CharClass, Parser, in_class, is_tag_char, is_white_space, lemma_run_end_bounds, lemma_run_end_is, run_end};

verus! {

/// An RGB color with 8-bit components.
#[derive(PartialEq, Eq, Structural, Clone, Copy, Debug)]
pub struct Color {
    pub r: u8,
    pub g: u8,
    pub b: u8,
}

#[derive(PartialEq, Eq, Structural, Clone, Copy, Debug)]
pub enum Unit {
    Px,
}

/// A decimal magnitude as written: `mantissa / 10^scale`, where `scale` counts
/// the digits after the decimal point. The magnitude is held exactly, without
/// rounding; a size is read in plain decimal notation (no exponent), and one
/// whose digits exceed a `u64` mantissa is rejected as a conversion failure.
#[derive(PartialEq, Eq, Structural, Clone, Copy, Debug)]
pub struct Number {
    pub mantissa: u64,
    pub scale: usize,
}

#[derive(PartialEq, Eq, Debug)]
pub enum Value {
    Keyword(String),
    Size(Number, Unit),
    ColorValue(Color),
}

pub ghost enum ValueView {
    Keyword(Seq<char>),
    Size(Number, Unit),
    ColorValue(Color),
}

impl View for Value {
    type V = ValueView;

    open spec fn view(&self) -> ValueView {
        match self {
            Value::Keyword(s) => ValueView::Keyword(s@),
            Value::Size(n, u) => ValueView::Size(*n, *u),
            Value::ColorValue(c) => ValueView::ColorValue(*c),
        }
    }
}

/// Why a parse was abandoned.
#[derive(PartialEq, Eq, Structural, Clone, Copy, Debug)]
pub enum ParseError {
    /// A character was needed where the input had ended.
    EndOfInput,
    /// The character at the given position fits no alternative of the grammar.
    GrammarViolation(char, usize),
    /// A numeric run is not a valid magnitude or 8-bit component.
    LiteralConversionFailure,
    /// A character that the grammar fixes was not there.
    StructuralAssertionFailure,
}

pub open spec fn is_digit(c: char) -> bool {
    '0' <= c && c <= '9'
}

pub open spec fn all_digits(s: Seq<char>) -> bool {
    forall|i: int| 0 <= i < s.len() ==> is_digit(#[trigger] s[i])
}

/// The number written by the decimal digits `s` after the digits whose value is `acc`.
pub open spec fn extend(acc: int, s: Seq<char>) -> int
    decreases s.len(),
{
    if s.len() == 0 {
        acc
    } else {
        extend(acc, s.drop_last()) * 10 + (s.last() as int - '0' as int)
    }
}

/// What an 8-bit component reads as: an optional `+` and at least one digit, at most 255.
pub open spec fn u8_of(s: Seq<char>) -> Option<u8> {
    let d = if s.len() > 0 && s[0] == '+' {
        s.drop_first()
    } else {
        s
    };
    if d.len() > 0 && all_digits(d) && extend(0, d) <= 255 {
        Some(extend(0, d) as u8)
    } else {
        None
    }
}

/// The text of a size without a trailing `px`.
pub open spec fn strip_px(s: Seq<char>) -> Seq<char> {
    if s.len() >= 2 && s[s.len() - 2] == 'p' && s[s.len() - 1] == 'x' {
        s.subrange(0, s.len() - 2)
    } else {
        s
    }
}

/// What a size reads as: digits, optionally a `.` and more digits, optionally `px`.
pub open spec fn number_of(s: Seq<char>) -> Option<Number> {
    let body = strip_px(s);
    let dot = run_end(body, 0, CharClass::Not('.'));
    let int_part = body.subrange(0, dot);
    let frac = if dot < body.len() {
        body.subrange(dot + 1, body.len() as int)
    } else {
        Seq::empty()
    };
    let m = extend(extend(0, int_part), frac);
    if int_part.len() > 0 && all_digits(int_part) && all_digits(frac) && m <= u64::MAX {
        Some(Number { mantissa: m as u64, scale: frac.len() as usize })
    } else {
        None
    }
}

/// Whether `c` has the Unicode `Alphabetic` property.
pub uninterp spec fn alphabetic(c: char) -> bool;

/// Relies on `char::is_alphabetic`: whether `c` has the Unicode `Alphabetic`
/// property, which every ASCII letter has.
#[verifier::external_body]
fn char_is_alphabetic(c: char) -> (r: bool)
    ensures
        r == alphabetic(c),
        ('a' <= c && c <= 'z') || ('A' <= c && c <= 'Z') ==> r,
{
    c.is_alphabetic()
}

/// Whether a keyword may start with `c`: an ASCII letter, or any other character
/// with the Unicode `Alphabetic` property.
pub open spec fn keyword_start(c: char) -> bool {
    ('a' <= c && c <= 'z') || ('A' <= c && c <= 'Z') || alphabetic(c)
}

/// The value that starts with the separator at `p`, and where it ends.
pub open spec fn value_at(t: Seq<char>, p: int) -> Result<(ValueView, int), ParseError> {
    if p >= t.len() {
        Err(ParseError::EndOfInput)
    } else {
        let s = run_end(t, p + 1, CharClass::Whitespace);
        if s >= t.len() {
            Err(ParseError::EndOfInput)
        } else if is_digit(t[s]) {
            let q = run_end(t, s, CharClass::Not(';'));
            match number_of(t.subrange(s, q)) {
                Some(n) => Ok((ValueView::Size(n, Unit::Px), q)),
                None => Err(ParseError::LiteralConversionFailure),
            }
        } else if t[s] == '(' {
            color_at(t, s + 1)
        } else if keyword_start(t[s]) {
            let q = run_end(t, s, CharClass::Not(';'));
            Ok((ValueView::Keyword(t.subrange(s, q)), q))
        } else {
            Err(ParseError::GrammarViolation(t[s], s as usize))
        }
    }
}

/// The color whose components start at `a`, up to and including its `)`.
pub open spec fn color_at(t: Seq<char>, a: int) -> Result<(ValueView, int), ParseError> {
    let e1 = run_end(t, a, CharClass::Not(','));
    let e2 = run_end(t, e1 + 1, CharClass::Not(','));
    let e3 = run_end(t, e2 + 1, CharClass::Not(')'));
    if e1 >= t.len() || e2 >= t.len() || e3 >= t.len() {
        Err(ParseError::EndOfInput)
    } else {
        match (
            u8_of(t.subrange(a, e1)),
            u8_of(t.subrange(e1 + 1, e2)),
            u8_of(t.subrange(e2 + 1, e3)),
        ) {
            (Some(r), Some(g), Some(b)) => Ok((ValueView::ColorValue(Color { r, g, b }), e3 + 1)),
            _ => Err(ParseError::LiteralConversionFailure),
        }
    }
}


/// Relies on `char::is_whitespace`: true exactly for the Unicode `White_Space` characters.
#[verifier::external_body]
fn char_is_whitespace(c: char) -> (r: bool)
    ensures
        r == is_white_space(c),
{
    c.is_whitespace()
}

/// A stylesheet parser: the input and the number of characters consumed so far.
pub struct CssParser {
    pub pos: usize,
    pub input: String,
}

impl Parser for CssParser {
    open spec fn text(&self) -> Seq<char> {
        self.input@
    }

    open spec fn cursor(&self) -> int {
        self.pos as int
    }

    fn next_char(&self) -> (c: char) {
        self.input.as_str().get_char(self.pos)
    }

    fn starts_with(&self, s: &str) -> (r: bool) {
        let n = self.input.as_str().unicode_len();
        let m = s.unicode_len();
        if m > n - self.pos {
            return false;
        }
        let mut i: usize = 0;
        while i < m
            invariant
                0 <= self.pos <= n,
                n == self.input@.len(),
                m == s@.len(),
                m <= n - self.pos,
                i <= m,
                forall|j: int| 0 <= j < i ==> self.input@[self.pos + j] == s@[j],
            decreases m - i,
        {
            if self.input.as_str().get_char(self.pos + i) != s.get_char(i) {
                assert(self.input@.subrange(self.pos as int, self.pos + m)[i as int] != s@[i as int]);
                return false;
            }
            i = i + 1;
        }
        assert(self.input@.subrange(self.pos as int, self.pos + m) =~= s@);
        true
    }

    fn eof(&self) -> (r: bool) {
        self.pos >= self.input.as_str().unicode_len()
    }

    fn consume_char(&mut self) -> (c: char) {
        // The length fits in a usize, so the cursor cannot overflow.
        let _len = self.input.as_str().unicode_len();
        let c = self.input.as_str().get_char(self.pos);
        self.pos = self.pos + 1;
        c
    }

    fn consume_while<T>(&mut self, test: T) -> (r: String) where T: Fn(char) -> bool {
        let start = self.pos;
        let n = self.input.as_str().unicode_len();
        loop
            invariant
                n == self.input@.len(),
                self.input@ == old(self).input@,
                start == old(self).pos,
                start <= self.pos <= self.input@.len(),
                forall|c: char| test.requires((c,)),
                forall|i: int| start <= i < self.pos ==> test.ensures((#[trigger] self.input@[i],), true),
            ensures
                self.input@ == old(self).input@,
                start <= self.pos <= self.input@.len(),
                forall|i: int| start <= i < self.pos ==> test.ensures((#[trigger] self.input@[i],), true),
                self.pos == self.input@.len() || test.ensures((self.input@[self.pos as int],), false),
            decreases self.input@.len() - self.pos,
        {
            if self.pos >= n {
                break;
            }
            let c = self.next_char();
            if !test(c) {
                break;
            }
            self.pos = self.pos + 1;
        }
        self.input.as_str().substring_char(start, self.pos).to_owned()
    }

    fn consume_whitespace(&mut self) {
        let ghost t = self.input@;
        let ghost p = self.pos as int;
        let test = |c: char| -> (b: bool)
            ensures
                b == is_white_space(c),
            { char_is_whitespace(c) };
        let _ = self.consume_while(test);
        proof {
            lemma_run_end_is(t, p, self.pos as int, CharClass::Whitespace);
        }
    }
}


proof fn lemma_extend_grows(acc: int, s: Seq<char>, i: int)
    requires
        0 <= acc,
        all_digits(s),
        0 <= i <= s.len(),
    ensures
        0 <= extend(acc, s.subrange(0, i)) <= extend(acc, s),
    decreases s.len(),
{
    if s.len() > 0 {
        let dl = s.drop_last();
        assert(all_digits(dl)) by {
            assert forall|j: int| 0 <= j < dl.len() implies is_digit(#[trigger] dl[j]) by {
                assert(dl[j] == s[j]);
            }
        }
        assert(is_digit(s[s.len() - 1]));
        if i < s.len() {
            lemma_extend_grows(acc, dl, i);
            assert(dl.subrange(0, i) =~= s.subrange(0, i));
        } else {
            lemma_extend_grows(acc, dl, 0);
            assert(s.subrange(0, i) =~= s);
        }
    } else {
        assert(s.subrange(0, i) =~= s);
    }
}

/// Reads the decimal digits of `s@[from..to]` after the digits whose value is `acc`.
fn accumulate(s: &str, from: usize, to: usize, acc: u64) -> (r: Option<u64>)
    requires
        from <= to <= s@.len(),
    ensures
        r == (if all_digits(s@.subrange(from as int, to as int)) && extend(
            acc as int,
            s@.subrange(from as int, to as int),
        ) <= u64::MAX {
            Some(extend(acc as int, s@.subrange(from as int, to as int)) as u64)
        } else {
            None
        }),
        all_digits(s@.subrange(from as int, to as int)) ==> acc <= extend(
            acc as int,
            s@.subrange(from as int, to as int),
        ),
{
    let ghost whole = s@.subrange(from as int, to as int);
    proof {
        if all_digits(whole) {
            lemma_extend_grows(acc as int, whole, 0);
            assert(whole.subrange(0, 0) =~= Seq::<char>::empty());
        }
    }
    let mut v: u64 = acc;
    let mut i: usize = from;
    while i < to
        invariant
            from <= i <= to,
            to <= s@.len(),
            whole == s@.subrange(from as int, to as int),
            all_digits(s@.subrange(from as int, i as int)),
            v == extend(acc as int, s@.subrange(from as int, i as int)),
        decreases to - i,
    {
        let c = s.get_char(i);
        if c < '0' || c > '9' {
            assert(whole[i - from] == c);
            return None;
        }
        let d: u64 = (c as u32 - '0' as u32) as u64;
        let ghost next = s@.subrange(from as int, i + 1);
        assert(next.drop_last() =~= s@.subrange(from as int, i as int));
        assert(all_digits(next)) by {
            assert forall|j: int| 0 <= j < next.len() implies is_digit(#[trigger] next[j]) by {
                if j < next.len() - 1 {
                    assert(next[j] == s@.subrange(from as int, i as int)[j]);
                }
            }
        }
        if v > (u64::MAX - d) / 10 {
            assert(v * 10 + d > u64::MAX) by (nonlinear_arith)
                requires
                    v > (u64::MAX - d) / 10,
                    d <= 9,
            ;
            proof {
                if all_digits(whole) {
                    lemma_extend_grows(acc as int, whole, i + 1 - from);
                    assert(whole.subrange(0, i + 1 - from) =~= next);
                }
            }
            return None;
        }
        assert(v * 10 + d <= u64::MAX) by (nonlinear_arith)
            requires
                v <= (u64::MAX - d) / 10,
                d <= 9,
        ;
        v = v * 10 + d;
        i = i + 1;
    }
    assert(whole =~= s@.subrange(from as int, i as int));
    Some(v)
}

/// Reads an 8-bit color component.
fn parse_u8(s: &str) -> (r: Result<u8, ParseError>)
    ensures
        r == (match u8_of(s@) {
            Some(v) => Ok(v),
            None => Err(ParseError::LiteralConversionFailure),
        }),
{
    let n = s.unicode_len();
    let from: usize = if n > 0 && s.get_char(0) == '+' {
        1
    } else {
        0
    };
    proof {
        if from == 1 {
            assert(s@.drop_first() =~= s@.subrange(1, n as int));
        } else {
            assert(s@ =~= s@.subrange(0, n as int));
        }
    }
    let ghost d = if s@.len() > 0 && s@[0] == '+' {
        s@.drop_first()
    } else {
        s@
    };
    assert(d == s@.subrange(from as int, n as int));
    if from == n {
        return Err(ParseError::LiteralConversionFailure);
    }
    match accumulate(s, from, n, 0) {
        Some(v) => {
            if v <= 255 {
                Ok(v as u8)
            } else {
                Err(ParseError::LiteralConversionFailure)
            }
        },
        None => Err(ParseError::LiteralConversionFailure),
    }
}

/// Reads the magnitude of a size.
fn parse_number(s: &str) -> (r: Result<Number, ParseError>)
    ensures
        r == (match number_of(s@) {
            Some(v) => Ok(v),
            None => Err(ParseError::LiteralConversionFailure),
        }),
{
    let n = s.unicode_len();
    let end: usize = if n >= 2 && s.get_char(n - 2) == 'p' && s.get_char(n - 1) == 'x' {
        n - 2
    } else {
        n
    };
    let ghost body = s@.subrange(0, end as int);
    assert(strip_px(s@) =~= body);
    let mut dot: usize = 0;
    while dot < end && s.get_char(dot) != '.'
        invariant
            dot <= end <= n,
            n == s@.len(),
            body == s@.subrange(0, end as int),
            forall|j: int| 0 <= j < dot ==> in_class(CharClass::Not('.'), #[trigger] body[j]),
        decreases end - dot,
    {
        dot = dot + 1;
    }
    proof {
        lemma_run_end_is(body, 0, dot as int, CharClass::Not('.'));
    }
    assert(body.subrange(0, dot as int) =~= s@.subrange(0, dot as int));
    if dot == 0 {
        return Err(ParseError::LiteralConversionFailure);
    }
    let frac_from: usize = if dot < end {
        dot + 1
    } else {
        end
    };
    let ghost frac = if dot < end {
        body.subrange(dot + 1, body.len() as int)
    } else {
        Seq::empty()
    };
    assert(frac =~= s@.subrange(frac_from as int, end as int));
    match accumulate(s, 0, dot, 0) {
        Some(ip) => {
            match accumulate(s, frac_from, end, ip) {
                Some(m) => Ok(Number { mantissa: m, scale: end - frac_from }),
                None => Err(ParseError::LiteralConversionFailure),
            }
        },
        None => {
            proof {
                let ip = s@.subrange(0, dot as int);
                if all_digits(ip) && all_digits(frac) {
                    lemma_extend_grows(extend(0, ip), frac, 0);
                    assert(frac.subrange(0, 0) =~= Seq::<char>::empty());
                }
            }
            Err(ParseError::LiteralConversionFailure)
        },
    }
}

fn is_valid_tag(c: char) -> (r: bool)
    ensures
        r == is_tag_char(c),
{
    ('A' <= c && c <= 'Z') || ('a' <= c && c <= 'z') || ('0' <= c && c <= '9') || c == '_' || c
        == '-'
}

impl CssParser {
    /// Consumes the run of characters up to the first `stop`, or to the end.
    fn consume_until(&mut self, stop: char) -> (r: String)
        requires
            old(self).pos <= old(self).input@.len(),
        ensures
            final(self).input@ == old(self).input@,
            final(self).pos == run_end(old(self).input@, old(self).pos as int, CharClass::Not(stop)),
            r@ == old(self).input@.subrange(old(self).pos as int, final(self).pos as int),
    {
        let ghost t = self.input@;
        let ghost p = self.pos as int;
        let test = |c: char| -> (b: bool)
            ensures
                b == (c != stop),
            { c != stop };
        let r = self.consume_while(test);
        proof {
            lemma_run_end_is(t, p, self.pos as int, CharClass::Not(stop));
        }
        r
    }

    /// Reads a tag name, an id or a class name: the run of characters up to the next `{`.
    fn parse_identifier(&mut self) -> (r: String)
        requires
            old(self).pos <= old(self).input@.len(),
        ensures
            final(self).input@ == old(self).input@,
            final(self).pos == run_end(old(self).input@, old(self).pos as int, CharClass::Not('{')),
            r@ == old(self).input@.subrange(old(self).pos as int, final(self).pos as int),
    {
        self.consume_until('{')
    }

    /// Reads a declaration key: the run of tag characters at the cursor.
    pub fn parse_key(&mut self) -> (r: String)
        requires
            old(self).pos <= old(self).input@.len(),
        ensures
            final(self).input@ == old(self).input@,
            final(self).pos == run_end(old(self).input@, old(self).pos as int, CharClass::TagChar),
            r@ == old(self).input@.subrange(old(self).pos as int, final(self).pos as int),
    {
        let ghost t = self.input@;
        let ghost p = self.pos as int;
        let test = |c: char| -> (b: bool)
            ensures
                b == is_tag_char(c),
            { is_valid_tag(c) };
        let key = self.consume_while(test);
        proof {
            lemma_run_end_is(t, p, self.pos as int, CharClass::TagChar);
        }
        key
    }

    /// Reads the three components of a color, the cursor standing after its `(`.
    fn parse_color(&mut self) -> (r: Result<Value, ParseError>)
        requires
            old(self).pos <= old(self).input@.len(),
        ensures
            final(self).input@ == old(self).input@,
            match color_at(old(self).input@, old(self).pos as int) {
                Ok((v, q)) => r is Ok && r->Ok_0@ == v && final(self).pos == q,
                Err(e) => r == Err::<Value, ParseError>(e),
            },
    {
        let ghost t = self.input@;
        let ghost a = self.pos as int;
        let red = self.consume_until(',');
        proof { lemma_run_end_bounds(t, a, CharClass::Not(',')); }
        if self.eof() {
            return Err(ParseError::EndOfInput);
        }
        self.consume_char();
        let ghost b1 = self.pos as int;
        let green = self.consume_until(',');
        proof { lemma_run_end_bounds(t, b1, CharClass::Not(',')); }
        if self.eof() {
            return Err(ParseError::EndOfInput);
        }
        self.consume_char();
        let ghost b2 = self.pos as int;
        let blue = self.consume_until(')');
        proof { lemma_run_end_bounds(t, b2, CharClass::Not(')')); }
        if self.eof() {
            return Err(ParseError::EndOfInput);
        }
        self.consume_char();
        match (parse_u8(red.as_str()), parse_u8(green.as_str()), parse_u8(blue.as_str())) {
            (Ok(r), Ok(g), Ok(b)) => Ok(Value::ColorValue(Color { r, g, b })),
            _ => Err(ParseError::LiteralConversionFailure),
        }
    }

    /// Reads a value: consumes the separator at the cursor, skips whitespace, and
    /// reads a size (a digit first), a color (`(` first) or a keyword (an
    /// alphabetic character first).
    pub fn parse_value(&mut self) -> (r: Result<Value, ParseError>)
        requires
            old(self).pos <= old(self).input@.len(),
        ensures
            final(self).input@ == old(self).input@,
            match value_at(old(self).input@, old(self).pos as int) {
                Ok((v, q)) => r is Ok && r->Ok_0@ == v && final(self).pos == q,
                Err(e) => r == Err::<Value, ParseError>(e),
            },
    {
        let ghost t = self.input@;
        if self.eof() {
            return Err(ParseError::EndOfInput);
        }
        self.consume_char();
        let ghost p1 = self.pos as int;
        self.consume_whitespace();
        proof { lemma_run_end_bounds(t, p1, CharClass::Whitespace); }
        if self.eof() {
            return Err(ParseError::EndOfInput);
        }
        let c = self.next_char();
        if '0' <= c && c <= '9' {
            let digits = self.consume_until(';');
            match parse_number(digits.as_str()) {
                Ok(n) => Ok(Value::Size(n, Unit::Px)),
                Err(e) => Err(e),
            }
        } else if c == '(' {
            self.consume_char();
            self.parse_color()
        } else if char_is_alphabetic(c) {
            Ok(Value::Keyword(self.consume_until(';')))
        } else {
            Err(ParseError::GrammarViolation(c, self.pos))
        }
    }
}


/// A value ends after the character it starts at, and not past the end.
pub proof fn lemma_value_at_advances(t: Seq<char>, p: int)
    requires
        0 <= p <= t.len(),
    ensures
        value_at(t, p) matches Ok((v, q)) ==> p < q <= t.len(),
{
    if p < t.len() {
        let s = run_end(t, p + 1, CharClass::Whitespace);
        lemma_run_end_bounds(t, p + 1, CharClass::Whitespace);
        if s < t.len() {
            lemma_run_end_bounds(t, s, CharClass::Not(';'));
            let a = s + 1;
            let e1 = run_end(t, a, CharClass::Not(','));
            lemma_run_end_bounds(t, a, CharClass::Not(','));
            if e1 < t.len() {
                let e2 = run_end(t, e1 + 1, CharClass::Not(','));
                lemma_run_end_bounds(t, e1 + 1, CharClass::Not(','));
                if e2 < t.len() {
                    lemma_run_end_bounds(t, e2 + 1, CharClass::Not(')'));
                }
            }
        }
    }
}

/// The mapping that a sequence of key/value pairs gives when later pairs
/// overwrite earlier ones with the same key.
pub open spec fn pairs_map(s: Seq<(Seq<char>, ValueView)>) -> Map<Seq<char>, ValueView>
    decreases s.len(),
{
    if s.len() == 0 {
        Map::empty()
    } else {
        pairs_map(s.drop_last()).insert(s.last().0, s.last().1)
    }
}

/// The key/value pairs that start at `k`, up to the `;` that ends them, and the
/// position after that `;`.
pub open spec fn pairs_from(t: Seq<char>, k: int) -> Result<
    (Seq<(Seq<char>, ValueView)>, int),
    ParseError,
>
    decreases t.len() - k,
{
    let e = run_end(t, k, CharClass::TagChar);
    match value_at(t, e) {
        Err(err) => Err(err),
        Ok((v, q)) => {
            let pair = (t.subrange(k, e), v);
            if q >= t.len() {
                Err(ParseError::EndOfInput)
            } else if t[q] == ';' {
                Ok((seq![pair], q + 1))
            } else if k < q {
                match pairs_from(t, q) {
                    Ok((rest, f)) => Ok((seq![pair] + rest, f)),
                    Err(err) => Err(err),
                }
            } else {
                Err(ParseError::EndOfInput)
            }
        },
    }
}

/// The declaration that starts at `p`: whitespace, then key/value pairs up to a `;`.
pub open spec fn argument_at(t: Seq<char>, p: int) -> Result<
    (Seq<(Seq<char>, ValueView)>, int),
    ParseError,
> {
    pairs_from(t, run_end(t, p, CharClass::Whitespace))
}

pub open spec fn entry_views(s: Seq<(String, Value)>) -> Seq<(Seq<char>, ValueView)> {
    s.map_values(|e: (String, Value)| (e.0@, e.1@))
}

/// A declaration: keys mapped to values, each key held once.
#[derive(PartialEq, Eq, Debug)]
pub struct Argument {
    pub entries: Vec<(String, Value)>,
}

impl View for Argument {
    type V = Map<Seq<char>, ValueView>;

    open spec fn view(&self) -> Map<Seq<char>, ValueView> {
        pairs_map(entry_views(self.entries@))
    }
}

proof fn lemma_pairs_map_update(s: Seq<(Seq<char>, ValueView)>, i: int, v: ValueView)
    requires
        0 <= i < s.len(),
        forall|a: int, b: int| 0 <= a < b < s.len() ==> s[a].0 != s[b].0,
    ensures
        pairs_map(s.update(i, (s[i].0, v))) == pairs_map(s).insert(s[i].0, v),
    decreases s.len(),
{
    let u = s.update(i, (s[i].0, v));
    let dl = s.drop_last();
    if i == s.len() - 1 {
        assert(u.drop_last() =~= dl);
        assert(pairs_map(u) =~= pairs_map(s).insert(s[i].0, v));
    } else {
        assert(u.drop_last() =~= dl.update(i, (s[i].0, v)));
        lemma_pairs_map_update(dl, i, v);
        assert(s[i].0 != s[s.len() - 1].0);
        assert(pairs_map(u) =~= pairs_map(s).insert(s[i].0, v));
    }
}

impl Argument {
    pub open spec fn well_formed(&self) -> bool {
        forall|a: int, b: int|
            0 <= a < b < self.entries@.len() ==> self.entries@[a].0@ != self.entries@[b].0@
    }

    /// An empty declaration.
    pub fn new() -> (r: Argument)
        ensures
            r.well_formed(),
            r@ == Map::<Seq<char>, ValueView>::empty(),
    {
        Argument { entries: Vec::new() }
    }

    /// Maps `key` to `value`, replacing what `key` was mapped to.
    pub fn insert(&mut self, key: String, value: Value)
        requires
            old(self).well_formed(),
        ensures
            final(self).well_formed(),
            final(self)@ == old(self)@.insert(key@, value@),
    {
        let ghost ev = entry_views(self.entries@);
        let mut i: usize = 0;
        while i < self.entries.len()
            invariant
                self.entries@ == old(self).entries@,
                self.well_formed(),
                ev == entry_views(self.entries@),
                i <= self.entries@.len(),
                forall|j: int| 0 <= j < i ==> self.entries@[j].0@ != key@,
            decreases self.entries@.len() - i,
        {
            if self.entries[i].0 == key {
                proof {
                    assert forall|a: int, b: int| 0 <= a < b < ev.len() implies ev[a].0 != ev[b].0 by {
                        assert(ev[a].0 == self.entries@[a].0@);
                        assert(ev[b].0 == self.entries@[b].0@);
                    }
                    lemma_pairs_map_update(ev, i as int, value@);
                }
                self.entries.set(i, (key, value));
                proof {
                    assert(entry_views(self.entries@) =~= ev.update(i as int, (ev[i as int].0, value@)));
                    assert forall|a: int, b: int| 0 <= a < b < self.entries@.len() implies self.entries@[a].0@ != self.entries@[b].0@ by {
                        assert(old(self).entries@[a].0@ != old(self).entries@[b].0@);
                    }
                }
                return;
            }
            i = i + 1;
        }
        self.entries.push((key, value));
        proof {
            let nv = entry_views(self.entries@);
            assert(nv.drop_last() =~= ev);
        }
    }
}

impl CssParser {
    /// Reads a declaration: skips whitespace, then reads key/value pairs into one
    /// mapping until a value is followed by `;`, which it consumes.
    pub fn parse_argument(&mut self) -> (r: Result<Argument, ParseError>)
        requires
            old(self).pos <= old(self).input@.len(),
        ensures
            final(self).input@ == old(self).input@,
            match argument_at(old(self).input@, old(self).pos as int) {
                Ok((pairs, q)) => r is Ok && r->Ok_0.well_formed() && r->Ok_0@ == pairs_map(pairs)
                    && final(self).pos == q,
                Err(e) => r is Err && r->Err_0 == e,
            },
    {
        let ghost t = self.input@;
        let ghost p0 = self.pos as int;
        let mut argument = Argument::new();
        self.consume_whitespace();
        proof {
            lemma_run_end_bounds(t, p0, CharClass::Whitespace);
        }
        let ghost mut done: Seq<(Seq<char>, ValueView)> = Seq::empty();
        assert(done + Seq::empty() =~= Seq::<(Seq<char>, ValueView)>::empty());
        loop
            invariant
                t == old(self).input@,
                p0 == old(self).pos,
                self.input@ == t,
                self.pos <= t.len(),
                argument.well_formed(),
                argument@ == pairs_map(done),
                argument_at(t, p0) == (match pairs_from(t, self.pos as int) {
                    Ok((rest, f)) => Ok((done + rest, f)),
                    Err(e) => Err(e),
                }),
            decreases t.len() - self.pos,
        {
            let ghost k = self.pos as int;
            let key = self.parse_key();
            proof {
                lemma_run_end_bounds(t, k, CharClass::TagChar);
                lemma_value_at_advances(t, self.pos as int);
            }
            let value = match self.parse_value() {
                Ok(v) => v,
                Err(e) => {
                    return Err(e);
                },
            };
            let ghost pair = (key@, value@);
            argument.insert(key, value);
            proof {
                assert(done.push(pair).drop_last() =~= done);
            }
            if self.eof() {
                return Err(ParseError::EndOfInput);
            }
            if self.next_char() == ';' {
                self.consume_char();
                proof {
                    assert(done + seq![pair] =~= done.push(pair));
                }
                return Ok(argument);
            }
            proof {
                let rest = pairs_from(t, self.pos as int);
                if let Ok((r2, f)) = rest {
                    assert(done + (seq![pair] + r2) =~= done.push(pair) + r2);
                }
                done = done.push(pair);
            }
        }
    }
}


/// A selector made of an optional tag name, an optional id and class names.
#[derive(PartialEq, Eq, Debug)]
pub struct SimpleSelector {
    pub html_tag: Option<String>,
    pub id: Option<String>,
    pub class: Vec<String>,
}

pub ghost struct SimpleSelectorView {
    pub html_tag: Option<Seq<char>>,
    pub id: Option<Seq<char>>,
    pub class: Seq<Seq<char>>,
}

pub open spec fn opt_view(o: Option<String>) -> Option<Seq<char>> {
    match o {
        Some(s) => Some(s@),
        None => None,
    }
}

impl View for SimpleSelector {
    type V = SimpleSelectorView;

    open spec fn view(&self) -> SimpleSelectorView {
        SimpleSelectorView {
            html_tag: opt_view(self.html_tag),
            id: opt_view(self.id),
            class: self.class@.map_values(|c: String| c@),
        }
    }
}

#[derive(PartialEq, Eq, Debug)]
pub enum Selector {
    Simple(SimpleSelector),
}

pub ghost enum SelectorView {
    Simple(SimpleSelectorView),
}

impl View for Selector {
    type V = SelectorView;

    open spec fn view(&self) -> SelectorView {
        match self {
            Selector::Simple(s) => SelectorView::Simple(s@),
        }
    }
}

/// A selector list and the declarations of its block, in the order written.
#[derive(PartialEq, Eq, Debug)]
pub struct Rule {
    pub selectors: Vec<Selector>,
    pub arguments: Vec<Argument>,
}

pub ghost struct RuleView {
    pub selectors: Seq<SelectorView>,
    pub arguments: Seq<Map<Seq<char>, ValueView>>,
}

impl View for Rule {
    type V = RuleView;

    open spec fn view(&self) -> RuleView {
        RuleView {
            selectors: self.selectors@.map_values(|s: Selector| s@),
            arguments: self.arguments@.map_values(|a: Argument| a@),
        }
    }
}

/// The rules of a stylesheet, in the order written.
#[derive(PartialEq, Eq, Debug)]
pub struct Stylesheet {
    pub rules: Vec<Rule>,
}

impl View for Stylesheet {
    type V = Seq<RuleView>;

    open spec fn view(&self) -> Seq<RuleView> {
        self.rules@.map_values(|r: Rule| r@)
    }
}

pub open spec fn empty_selector() -> SimpleSelectorView {
    SimpleSelectorView { html_tag: None, id: None, class: Seq::empty() }
}

/// The simple selector that starts at `p`, added to `acc`, and where it ends.
pub open spec fn simple_selector_from(t: Seq<char>, p: int, acc: SimpleSelectorView) -> Result<
    (SimpleSelectorView, int),
    ParseError,
>
    decreases t.len() - p,
{
    if p < 0 || p >= t.len() {
        Ok((acc, p))
    } else if t[p] == '.' {
        if p + 1 >= t.len() {
            Err(ParseError::EndOfInput)
        } else if t[p + 1] != '{' {
            Err(ParseError::StructuralAssertionFailure)
        } else {
            let e = run_end(t, p + 2, CharClass::Not('{'));
            if p < e <= t.len() {
                simple_selector_from(
                    t,
                    e,
                    SimpleSelectorView { class: acc.class.push(t.subrange(p + 2, e)), ..acc },
                )
            } else {
                Err(ParseError::EndOfInput)
            }
        }
    } else if t[p] == '#' {
        let e = run_end(t, p + 1, CharClass::Not('{'));
        if p < e <= t.len() {
            simple_selector_from(t, e, SimpleSelectorView { id: Some(t.subrange(p + 1, e)), ..acc })
        } else {
            Err(ParseError::EndOfInput)
        }
    } else if t[p] == '*' {
        simple_selector_from(t, p + 1, acc)
    } else if is_tag_char(t[p]) {
        let e = run_end(t, p, CharClass::Not('{'));
        if p < e <= t.len() {
            simple_selector_from(
                t,
                e,
                SimpleSelectorView { html_tag: Some(t.subrange(p, e)), ..acc },
            )
        } else {
            Err(ParseError::EndOfInput)
        }
    } else {
        Ok((acc, p))
    }
}


/// The selector list that starts at `p`, added to `acc`, and the position of the
/// `{` that ends it.
pub open spec fn selectors_from(t: Seq<char>, p: int, acc: Seq<SelectorView>) -> Result<
    (Seq<SelectorView>, int),
    ParseError,
>
    decreases t.len() - p,
{
    match simple_selector_from(t, p, empty_selector()) {
        Err(e) => Err(e),
        Ok((sel, e)) => {
            let w = run_end(t, e, CharClass::Whitespace);
            let acc2 = acc.push(SelectorView::Simple(sel));
            if w < 0 || w >= t.len() {
                Err(ParseError::EndOfInput)
            } else if t[w] == ',' {
                let n = run_end(t, w + 1, CharClass::Whitespace);
                if p < n <= t.len() {
                    selectors_from(t, n, acc2)
                } else {
                    Err(ParseError::EndOfInput)
                }
            } else if t[w] == '{' {
                Ok((acc2, w))
            } else {
                Err(ParseError::GrammarViolation(t[w], w as usize))
            }
        },
    }
}

/// The declarations that start at `p`, added to `acc`, up to and including the `}`
/// that ends the block.
pub open spec fn arguments_from(
    t: Seq<char>,
    p: int,
    acc: Seq<Map<Seq<char>, ValueView>>,
) -> Result<(Seq<Map<Seq<char>, ValueView>>, int), ParseError>
    decreases t.len() - p,
{
    let w = run_end(t, p, CharClass::Whitespace);
    if w < 0 || w >= t.len() {
        Err(ParseError::EndOfInput)
    } else if t[w] == '}' {
        Ok((acc, w + 1))
    } else {
        match argument_at(t, w) {
            Err(e) => Err(e),
            Ok((pairs, q)) => if p < q <= t.len() {
                arguments_from(t, q, acc.push(pairs_map(pairs)))
            } else {
                Err(ParseError::EndOfInput)
            },
        }
    }
}

/// The declaration block that starts with the `{` at `p`.
pub open spec fn block_at(t: Seq<char>, p: int) -> Result<
    (Seq<Map<Seq<char>, ValueView>>, int),
    ParseError,
> {
    if p < 0 || p >= t.len() {
        Err(ParseError::EndOfInput)
    } else if t[p] != '{' {
        Err(ParseError::StructuralAssertionFailure)
    } else {
        arguments_from(t, p + 1, Seq::empty())
    }
}

/// The rule that starts at `p`, and where it ends.
pub open spec fn rule_at(t: Seq<char>, p: int) -> Result<(RuleView, int), ParseError> {
    match selectors_from(t, p, Seq::empty()) {
        Err(e) => Err(e),
        Ok((sels, b)) => match block_at(t, b) {
            Err(e) => Err(e),
            Ok((args, q)) => Ok((RuleView { selectors: sels, arguments: args }, q)),
        },
    }
}

/// The rules from `p` to the end of the text, added to `acc`.
pub open spec fn rules_from(t: Seq<char>, p: int, acc: Seq<RuleView>) -> Result<
    Seq<RuleView>,
    ParseError,
>
    decreases t.len() - p,
{
    let w = run_end(t, p, CharClass::Whitespace);
    if w < 0 || w >= t.len() {
        Ok(acc)
    } else {
        match rule_at(t, w) {
            Err(e) => Err(e),
            Ok((r, q)) => if p < q <= t.len() {
                rules_from(t, q, acc.push(r))
            } else {
                Err(ParseError::EndOfInput)
            },
        }
    }
}

/// The stylesheet that a whole text reads as.
pub open spec fn stylesheet_of(t: Seq<char>) -> Result<Seq<RuleView>, ParseError> {
    rules_from(t, 0, Seq::empty())
}

pub proof fn lemma_argument_at_advances(t: Seq<char>, k: int)
    requires
        0 <= k <= t.len(),
    ensures
        argument_at(t, k) matches Ok((pairs, q)) ==> k < q <= t.len(),
{
    let w = run_end(t, k, CharClass::Whitespace);
    lemma_run_end_bounds(t, k, CharClass::Whitespace);
    lemma_pairs_from_advances(t, w);
}

pub proof fn lemma_pairs_from_advances(t: Seq<char>, k: int)
    requires
        0 <= k <= t.len(),
    ensures
        pairs_from(t, k) matches Ok((pairs, q)) ==> k < q <= t.len(),
    decreases t.len() - k,
{
    let e = run_end(t, k, CharClass::TagChar);
    lemma_run_end_bounds(t, k, CharClass::TagChar);
    lemma_value_at_advances(t, e);
    if let Ok((v, q)) = value_at(t, e) {
        if q < t.len() && t[q] != ';' && k < q {
            lemma_pairs_from_advances(t, q);
        }
    }
}

impl CssParser {
    /// Reads one simple selector: tag names, `#` ids, `.` classes and `*`, up to the
    /// first character that can begin none of them.
    pub fn parse_simple_selector(&mut self) -> (r: Result<SimpleSelector, ParseError>)
        requires
            old(self).pos <= old(self).input@.len(),
        ensures
            final(self).input@ == old(self).input@,
            match simple_selector_from(old(self).input@, old(self).pos as int, empty_selector()) {
                Ok((sel, q)) => r is Ok && r->Ok_0@ == sel && final(self).pos == q,
                Err(e) => r is Err && r->Err_0 == e,
            },
    {
        let ghost t = self.input@;
        let ghost p0 = self.pos as int;
        let mut sel = SimpleSelector { html_tag: None, id: None, class: Vec::new() };
        assert(sel@.class =~= Seq::<Seq<char>>::empty());
        loop
            invariant
                t == old(self).input@,
                p0 == old(self).pos,
                self.input@ == t,
                self.pos <= t.len(),
                simple_selector_from(t, p0, empty_selector()) == simple_selector_from(
                    t,
                    self.pos as int,
                    sel@,
                ),
            ensures
                self.input@ == t,
                simple_selector_from(t, p0, empty_selector()) == Ok::<
                    (SimpleSelectorView, int),
                    ParseError,
                >((sel@, self.pos as int)),
            decreases t.len() - self.pos,
        {
            if self.eof() {
                break;
            }
            let ghost p = self.pos as int;
            let c = self.next_char();
            if c == '.' {
                self.consume_char();
                if self.eof() {
                    return Err(ParseError::EndOfInput);
                }
                if self.consume_char() != '{' {
                    return Err(ParseError::StructuralAssertionFailure);
                }
                proof {
                    lemma_run_end_bounds(t, p + 2, CharClass::Not('{'));
                }
                let name = self.parse_identifier();
                let ghost old_class = sel@.class;
                let ghost name_view = name@;
                sel.class.push(name);
                assert(sel@.class =~= old_class.push(name_view));
            } else if c == '#' {
                self.consume_char();
                proof {
                    lemma_run_end_bounds(t, p + 1, CharClass::Not('{'));
                }
                sel.id = Some(self.parse_identifier());
            } else if c == '*' {
                self.consume_char();
            } else if is_valid_tag(c) {
                proof {
                    lemma_run_end_bounds(t, p, CharClass::Not('{'));
                }
                sel.html_tag = Some(self.parse_identifier());
            } else {
                break;
            }
        }
        Ok(sel)
    }

    /// Reads a selector list, up to the `{` of its block, which it leaves in place.
    pub fn parse_selectors(&mut self) -> (r: Result<Vec<Selector>, ParseError>)
        requires
            old(self).pos <= old(self).input@.len(),
        ensures
            final(self).input@ == old(self).input@,
            match selectors_from(old(self).input@, old(self).pos as int, Seq::empty()) {
                Ok((sels, q)) => r is Ok && r->Ok_0@.map_values(|s: Selector| s@) == sels
                    && final(self).pos == q,
                Err(e) => r is Err && r->Err_0 == e,
            },
    {
        let ghost t = self.input@;
        let ghost p0 = self.pos as int;
        let mut selectors: Vec<Selector> = Vec::new();
        assert(selectors@.map_values(|s: Selector| s@) =~= Seq::<SelectorView>::empty());
        loop
            invariant
                t == old(self).input@,
                p0 == old(self).pos,
                self.input@ == t,
                self.pos <= t.len(),
                selectors_from(t, p0, Seq::empty()) == selectors_from(
                    t,
                    self.pos as int,
                    selectors@.map_values(|s: Selector| s@),
                ),
            decreases t.len() - self.pos,
        {
            let ghost p = self.pos as int;
            let ghost acc = selectors@.map_values(|s: Selector| s@);
            proof {
                lemma_simple_selector_from_advances(t, p, empty_selector());
            }
            let simple = match self.parse_simple_selector() {
                Ok(s) => s,
                Err(e) => {
                    return Err(e);
                },
            };
            let ghost e = self.pos as int;
            selectors.push(Selector::Simple(simple));
            assert(selectors@.map_values(|s: Selector| s@) =~= acc.push(
                SelectorView::Simple(simple@),
            ));
            self.consume_whitespace();
            proof {
                lemma_run_end_bounds(t, e, CharClass::Whitespace);
            }
            if self.eof() {
                return Err(ParseError::EndOfInput);
            }
            let c = self.next_char();
            if c == ',' {
                self.consume_char();
                let ghost w1 = self.pos as int;
                self.consume_whitespace();
                proof {
                    lemma_run_end_bounds(t, w1, CharClass::Whitespace);
                }
            } else if c == '{' {
                return Ok(selectors);
            } else {
                return Err(ParseError::GrammarViolation(c, self.pos));
            }
        }
    }

    /// Reads a declaration block from its `{` up to and including its `}`.
    fn parse_arguments(&mut self) -> (r: Result<Vec<Argument>, ParseError>)
        requires
            old(self).pos <= old(self).input@.len(),
        ensures
            final(self).input@ == old(self).input@,
            match block_at(old(self).input@, old(self).pos as int) {
                Ok((args, q)) => r is Ok && r->Ok_0@.map_values(|a: Argument| a@) == args
                    && final(self).pos == q,
                Err(e) => r is Err && r->Err_0 == e,
            },
    {
        let ghost t = self.input@;
        let ghost p0 = self.pos as int;
        if self.eof() {
            return Err(ParseError::EndOfInput);
        }
        if self.consume_char() != '{' {
            return Err(ParseError::StructuralAssertionFailure);
        }
        let mut arguments: Vec<Argument> = Vec::new();
        assert(arguments@.map_values(|a: Argument| a@) =~= Seq::<Map<Seq<char>, ValueView>>::empty());
        loop
            invariant
                t == old(self).input@,
                p0 == old(self).pos,
                self.input@ == t,
                self.pos <= t.len(),
                block_at(t, p0) == arguments_from(
                    t,
                    self.pos as int,
                    arguments@.map_values(|a: Argument| a@),
                ),
            decreases t.len() - self.pos,
        {
            let ghost p = self.pos as int;
            let ghost acc = arguments@.map_values(|a: Argument| a@);
            self.consume_whitespace();
            proof {
                lemma_run_end_bounds(t, p, CharClass::Whitespace);
            }
            if self.eof() {
                return Err(ParseError::EndOfInput);
            }
            if self.next_char() == '}' {
                self.consume_char();
                return Ok(arguments);
            }
            proof {
                lemma_argument_at_advances(t, self.pos as int);
            }
            let argument = match self.parse_argument() {
                Ok(a) => a,
                Err(e) => {
                    return Err(e);
                },
            };
            let ghost av = argument@;
            arguments.push(argument);
            assert(arguments@.map_values(|a: Argument| a@) =~= acc.push(av));
        }
    }

    /// Reads one rule: a selector list and its declaration block.
    fn parse_rule(&mut self) -> (r: Result<Rule, ParseError>)
        requires
            old(self).pos <= old(self).input@.len(),
        ensures
            final(self).input@ == old(self).input@,
            match rule_at(old(self).input@, old(self).pos as int) {
                Ok((rule, q)) => r is Ok && r->Ok_0@ == rule && final(self).pos == q,
                Err(e) => r is Err && r->Err_0 == e,
            },
    {
        proof {
            lemma_selectors_from_advances(old(self).input@, old(self).pos as int, Seq::empty());
        }
        let selectors = match self.parse_selectors() {
            Ok(s) => s,
            Err(e) => {
                return Err(e);
            },
        };
        let arguments = match self.parse_arguments() {
            Ok(a) => a,
            Err(e) => {
                return Err(e);
            },
        };
        Ok(Rule { selectors, arguments })
    }

    /// Reads rules, separated by whitespace, up to the end of the input.
    fn parse_rules(&mut self) -> (r: Result<Vec<Rule>, ParseError>)
        requires
            old(self).pos <= old(self).input@.len(),
        ensures
            final(self).input@ == old(self).input@,
            r is Ok ==> final(self).pos == final(self).input@.len(),
            match rules_from(old(self).input@, old(self).pos as int, Seq::empty()) {
                Ok(rules) => r is Ok && r->Ok_0@.map_values(|x: Rule| x@) == rules,
                Err(e) => r is Err && r->Err_0 == e,
            },
    {
        let ghost t = self.input@;
        let ghost p0 = self.pos as int;
        let mut rules: Vec<Rule> = Vec::new();
        assert(rules@.map_values(|x: Rule| x@) =~= Seq::<RuleView>::empty());
        loop
            invariant
                t == old(self).input@,
                p0 == old(self).pos,
                self.input@ == t,
                self.pos <= t.len(),
                rules_from(t, p0, Seq::empty()) == rules_from(
                    t,
                    self.pos as int,
                    rules@.map_values(|x: Rule| x@),
                ),
            decreases t.len() - self.pos,
        {
            let ghost p = self.pos as int;
            let ghost acc = rules@.map_values(|x: Rule| x@);
            self.consume_whitespace();
            proof {
                lemma_run_end_bounds(t, p, CharClass::Whitespace);
            }
            if self.eof() {
                return Ok(rules);
            }
            let ghost w = self.pos as int;
            let rule = match self.parse_rule() {
                Ok(x) => x,
                Err(e) => {
                    return Err(e);
                },
            };
            proof {
                lemma_rule_at_advances(t, w);
            }
            let ghost rv = rule@;
            rules.push(rule);
            assert(rules@.map_values(|x: Rule| x@) =~= acc.push(rv));
        }
    }
}

pub proof fn lemma_rule_at_advances(t: Seq<char>, p: int)
    requires
        0 <= p < t.len(),
    ensures
        rule_at(t, p) matches Ok((r, q)) ==> p < q <= t.len(),
{
    lemma_selectors_from_advances(t, p, Seq::empty());
    if let Ok((sels, b)) = selectors_from(t, p, Seq::empty()) {
        if 0 <= b < t.len() && t[b] == '{' {
            lemma_arguments_from_advances(t, b + 1, Seq::empty());
        }
    }
}

pub proof fn lemma_selectors_from_advances(t: Seq<char>, p: int, acc: Seq<SelectorView>)
    requires
        0 <= p <= t.len(),
    ensures
        selectors_from(t, p, acc) matches Ok((s, q)) ==> p <= q < t.len(),
    decreases t.len() - p,
{
    lemma_simple_selector_from_advances(t, p, empty_selector());
    if let Ok((sel, e)) = simple_selector_from(t, p, empty_selector()) {
        lemma_run_end_bounds(t, e, CharClass::Whitespace);
        let w = run_end(t, e, CharClass::Whitespace);
        if 0 <= w < t.len() && t[w] == ',' {
            let n = run_end(t, w + 1, CharClass::Whitespace);
            if p < n <= t.len() {
                lemma_selectors_from_advances(t, n, acc.push(SelectorView::Simple(sel)));
            }
        }
    }
}

pub proof fn lemma_simple_selector_from_advances(t: Seq<char>, p: int, acc: SimpleSelectorView)
    requires
        0 <= p <= t.len(),
    ensures
        simple_selector_from(t, p, acc) matches Ok((s, q)) ==> p <= q <= t.len(),
    decreases t.len() - p,
{
    if p < t.len() {
        if t[p] == '.' && p + 1 < t.len() && t[p + 1] == '{' {
            let e = run_end(t, p + 2, CharClass::Not('{'));
            if p < e <= t.len() {
                lemma_simple_selector_from_advances(
                    t,
                    e,
                    SimpleSelectorView { class: acc.class.push(t.subrange(p + 2, e)), ..acc },
                );
            }
        } else if t[p] == '#' {
            let e = run_end(t, p + 1, CharClass::Not('{'));
            if p < e <= t.len() {
                lemma_simple_selector_from_advances(
                    t,
                    e,
                    SimpleSelectorView { id: Some(t.subrange(p + 1, e)), ..acc },
                );
            }
        } else if t[p] == '*' {
            lemma_simple_selector_from_advances(t, p + 1, acc);
        } else if is_tag_char(t[p]) {
            let e = run_end(t, p, CharClass::Not('{'));
            if p < e <= t.len() {
                lemma_simple_selector_from_advances(
                    t,
                    e,
                    SimpleSelectorView { html_tag: Some(t.subrange(p, e)), ..acc },
                );
            }
        }
    }
}

pub proof fn lemma_arguments_from_advances(
    t: Seq<char>,
    p: int,
    acc: Seq<Map<Seq<char>, ValueView>>,
)
    requires
        0 <= p <= t.len(),
    ensures
        arguments_from(t, p, acc) matches Ok((a, q)) ==> p < q <= t.len(),
    decreases t.len() - p,
{
    lemma_run_end_bounds(t, p, CharClass::Whitespace);
    let w = run_end(t, p, CharClass::Whitespace);
    if w < t.len() && t[w] != '}' {
        if let Ok((pairs, q)) = argument_at(t, w) {
            if p < q <= t.len() {
                lemma_arguments_from_advances(t, q, acc.push(pairs_map(pairs)));
            }
        }
    }
}

/// Parses a whole stylesheet.
pub fn parse(source: String) -> (r: Result<Stylesheet, ParseError>)
    ensures
        match stylesheet_of(source@) {
            Ok(rules) => r is Ok && r->Ok_0@ == rules,
            Err(e) => r is Err && r->Err_0 == e,
        },
{
    let mut parser = CssParser { pos: 0, input: source };
    match parser.parse_rules() {
        Ok(rules) => Ok(Stylesheet { rules }),
        Err(e) => Err(e),
    }
}

} // verus!
