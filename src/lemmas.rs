use vstd::prelude::*;
use crate::parser::{
    CharClass, in_class, is_tag_char, is_white_space, lemma_run_end_bounds, lemma_run_end_is,
    run_end,
};
use crate::parser_css::{
    Color, Number, ParseError, RuleView, Unit, ValueView, all_digits, argument_at, keyword_start,
    extend, is_digit, pairs_map, strip_px, stylesheet_of, u8_of, value_at,
};

verus! {

/// The character of a decimal digit.
pub open spec fn digit_char(d: int) -> char {
    if d <= 0 {
        '0'
    } else if d == 1 {
        '1'
    } else if d == 2 {
        '2'
    } else if d == 3 {
        '3'
    } else if d == 4 {
        '4'
    } else if d == 5 {
        '5'
    } else if d == 6 {
        '6'
    } else if d == 7 {
        '7'
    } else if d == 8 {
        '8'
    } else {
        '9'
    }
}

/// The decimal numeral of `n`, without leading zeros.
pub open spec fn decimal(n: nat) -> Seq<char>
    decreases n,
{
    if n < 10 {
        seq![digit_char(n as int)]
    } else {
        decimal(n / 10).push(digit_char((n % 10) as int))
    }
}

proof fn lemma_digit_char(d: int)
    requires
        0 <= d <= 9,
    ensures
        is_digit(digit_char(d)),
        digit_char(d) as int - '0' as int == d,
{
    if d == 0 {
        assert('0' as int - '0' as int == 0);
    } else if d == 1 {
        assert('1' as int - '0' as int == 1);
    } else if d == 2 {
        assert('2' as int - '0' as int == 2);
    } else if d == 3 {
        assert('3' as int - '0' as int == 3);
    } else if d == 4 {
        assert('4' as int - '0' as int == 4);
    } else if d == 5 {
        assert('5' as int - '0' as int == 5);
    } else if d == 6 {
        assert('6' as int - '0' as int == 6);
    } else if d == 7 {
        assert('7' as int - '0' as int == 7);
    } else if d == 8 {
        assert('8' as int - '0' as int == 8);
    } else {
        assert('9' as int - '0' as int == 9);
    }
}

proof fn lemma_pairs_map_single(key: Seq<char>, v: ValueView)
    ensures
        pairs_map(seq![(key, v)]) == map![key => v],
{
    let s = seq![(key, v)];
    assert(s.drop_last() =~= Seq::<(Seq<char>, ValueView)>::empty());
    assert(pairs_map(s.drop_last()) == Map::<Seq<char>, ValueView>::empty());
    assert(pairs_map(s) =~= map![key => v]);
}

pub proof fn lemma_decimal(n: nat)
    ensures
        decimal(n).len() > 0,
        all_digits(decimal(n)),
        extend(0, decimal(n)) == n,
    decreases n,
{
    let s = decimal(n);
    if n < 10 {
        lemma_digit_char(n as int);
        assert(s.drop_last() =~= Seq::<char>::empty());
        assert(extend(0, s.drop_last()) == 0);
        assert(s.last() == digit_char(n as int));
    } else {
        lemma_digit_char((n % 10) as int);
        lemma_decimal(n / 10);
        assert(s.drop_last() =~= decimal(n / 10));
        assert(s.last() == digit_char((n % 10) as int));
        assert(extend(0, s) == extend(0, decimal(n / 10)) * 10 + (n % 10));
        assert((n / 10) * 10 + n % 10 == n);
        assert forall|i: int| 0 <= i < s.len() implies is_digit(#[trigger] s[i]) by {
            if i < s.len() - 1 {
                assert(s[i] == decimal(n / 10)[i]);
            }
        }
    }
}

/// A declaration key: one or more tag characters.
pub open spec fn is_key(key: Seq<char>) -> bool {
    key.len() > 0 && forall|i: int| 0 <= i < key.len() ==> is_tag_char(#[trigger] key[i])
}

/// A keyword: it starts with a character that may start one (an ASCII letter or
/// an alphabetic character) and that is no digit, no `(` and no whitespace, and it
/// holds no `;`.
pub open spec fn is_keyword(kw: Seq<char>) -> bool {
    &&& kw.len() > 0
    &&& keyword_start(kw[0])
    &&& !is_digit(kw[0])
    &&& !is_white_space(kw[0])
    &&& kw[0] != '('
    &&& forall|i: int| 0 <= i < kw.len() ==> #[trigger] kw[i] != ';'
}

/// Whether every character of `s` is whitespace.
pub open spec fn all_white(s: Seq<char>) -> bool {
    forall|i: int| 0 <= i < s.len() ==> is_white_space(#[trigger] s[i])
}

/// The text `pre`, then `:`, the whitespace `ws`, `body`, `;` and `tail`.
pub open spec fn value_text_at(
    pre: Seq<char>,
    ws: Seq<char>,
    body: Seq<char>,
    tail: Seq<char>,
) -> Seq<char> {
    pre + seq![':'] + ws + body + seq![';'] + tail
}

/// The text of a declaration `key:body;` with whitespace `ws0` before it,
/// whitespace `ws1` after its `:`, and `tail` after its `;`.
pub open spec fn declaration_text(
    ws0: Seq<char>,
    key: Seq<char>,
    ws1: Seq<char>,
    body: Seq<char>,
    tail: Seq<char>,
) -> Seq<char> {
    value_text_at(ws0 + key, ws1, body, tail)
}

/// Where the `;` after `body` stands in `value_text_at(pre, ws, body, tail)`.
pub open spec fn semicolon_at(pre: Seq<char>, ws: Seq<char>, body: Seq<char>) -> int {
    pre.len() as int + 1 + ws.len() + body.len()
}

/// The text of a color: `(r,g,b)`.
pub open spec fn color_text(c: Color) -> Seq<char> {
    seq!['('] + decimal(c.r as nat) + seq![','] + decimal(c.g as nat) + seq![','] + decimal(
        c.b as nat,
    ) + seq![')']
}

proof fn lemma_u8_of_decimal(v: u8)
    ensures
        u8_of(decimal(v as nat)) == Some(v),
{
    lemma_decimal(v as nat);
    let d = decimal(v as nat);
    assert(is_digit(d[0]));
}

/// The runs that a value reads in `value_text_at(pre, ws, body, tail)`.
proof fn lemma_value_runs(pre: Seq<char>, ws: Seq<char>, body: Seq<char>, tail: Seq<char>)
    requires
        all_white(ws),
        body.len() > 0,
        !is_white_space(body[0]),
        forall|j: int| 0 <= j < body.len() ==> #[trigger] body[j] != ';',
    ensures
        ({
            let t = value_text_at(pre, ws, body, tail);
            let s = pre.len() as int + 1 + ws.len();
            let q = semicolon_at(pre, ws, body);
            &&& t.len() == q + 1 + tail.len()
            &&& run_end(t, pre.len() as int + 1, CharClass::Whitespace) == s
            &&& run_end(t, s, CharClass::Not(';')) == q
            &&& t.subrange(s, q) == body
            &&& t[q] == ';'
            &&& forall|j: int| 0 <= j < body.len() ==> t[s + j] == #[trigger] body[j]
            &&& t.subrange(q + 1, t.len() as int) == tail
        }),
{
    let t = value_text_at(pre, ws, body, tail);
    let k = pre.len() as int;
    let s = k + 1 + ws.len();
    let q = semicolon_at(pre, ws, body);
    assert forall|j: int| 0 <= j < body.len() implies t[s + j] == #[trigger] body[j] by {}
    assert forall|i: int| k + 1 <= i < s implies in_class(CharClass::Whitespace, #[trigger] t[i]) by {
        assert(t[i] == ws[i - k - 1]);
    }
    assert(t[s] == body[0]);
    lemma_run_end_is(t, k + 1, s, CharClass::Whitespace);
    assert forall|i: int| s <= i < q implies in_class(CharClass::Not(';'), #[trigger] t[i]) by {
        assert(t[s + (i - s)] == body[i - s]);
    }
    assert(t[q] == ';');
    lemma_run_end_is(t, s, q, CharClass::Not(';'));
    assert(t.subrange(s, q) =~= body);
    assert(t.subrange(q + 1, t.len() as int) =~= tail);
}

/// A declaration whose value ends at its `;` gives the one pair of its key and
/// that value, and stops after the `;`.
proof fn lemma_single_pair(
    ws0: Seq<char>,
    key: Seq<char>,
    ws1: Seq<char>,
    body: Seq<char>,
    tail: Seq<char>,
    v: ValueView,
)
    requires
        all_white(ws0),
        is_key(key),
        ({
            let t = declaration_text(ws0, key, ws1, body, tail);
            let q = semicolon_at(ws0 + key, ws1, body);
            &&& value_at(t, (ws0 + key).len() as int) == Ok::<(ValueView, int), ParseError>((v, q))
            &&& q < t.len()
            &&& t[q] == ';'
        }),
    ensures
        argument_at(declaration_text(ws0, key, ws1, body, tail), 0) == Ok::<
            (Seq<(Seq<char>, ValueView)>, int),
            ParseError,
        >((seq![(key, v)], semicolon_at(ws0 + key, ws1, body) + 1)),
{
    let t = declaration_text(ws0, key, ws1, body, tail);
    let w = ws0.len() as int;
    let e = w + key.len() as int;
    assert forall|i: int| 0 <= i < w implies in_class(CharClass::Whitespace, #[trigger] t[i]) by {
        assert(t[i] == ws0[i]);
    }
    assert(t[w] == key[0]);
    assert(is_tag_char(key[0]));
    lemma_run_end_is(t, 0, w, CharClass::Whitespace);
    assert forall|i: int| w <= i < e implies in_class(CharClass::TagChar, #[trigger] t[i]) by {
        assert(t[i] == key[i - w]);
    }
    assert(t[e] == ':');
    lemma_run_end_is(t, w, e, CharClass::TagChar);
    assert(t.subrange(w, e) =~= key);
}

/// The value `:ws kw;` after `pre` is the keyword `kw`.
proof fn lemma_keyword_value(pre: Seq<char>, ws: Seq<char>, kw: Seq<char>, tail: Seq<char>)
    requires
        all_white(ws),
        is_keyword(kw),
    ensures
        value_at(value_text_at(pre, ws, kw, tail), pre.len() as int) == Ok::<
            (ValueView, int),
            ParseError,
        >((ValueView::Keyword(kw), semicolon_at(pre, ws, kw))),
{
    lemma_value_runs(pre, ws, kw, tail);
    let t = value_text_at(pre, ws, kw, tail);
    let s = pre.len() as int + 1 + ws.len();
    assert(t[s + 0] == kw[0]);
}

/// Where the separators of a color's text stand, and what lies between them.
proof fn lemma_color_text_shape(c: Color)
    ensures
        ({
            let body = color_text(c);
            let dr = decimal(c.r as nat);
            let dg = decimal(c.g as nat);
            let db = decimal(c.b as nat);
            let i1 = 1 + dr.len() as int;
            let i2 = i1 + 1 + dg.len();
            let i3 = i2 + 1 + db.len();
            &&& body.len() == i3 + 1
            &&& body[0] == '('
            &&& body[i1] == ','
            &&& body[i2] == ','
            &&& body[i3] == ')'
            &&& body.subrange(1, i1) == dr
            &&& body.subrange(i1 + 1, i2) == dg
            &&& body.subrange(i2 + 1, i3) == db
            &&& forall|j: int| 0 <= j < body.len() ==> #[trigger] body[j] != ';'
        }),
{
    let dr = decimal(c.r as nat);
    let dg = decimal(c.g as nat);
    let db = decimal(c.b as nat);
    lemma_decimal(c.r as nat);
    lemma_decimal(c.g as nat);
    lemma_decimal(c.b as nat);
    let body = color_text(c);
    let i1 = 1 + dr.len() as int;
    let i2 = i1 + 1 + dg.len();
    let i3 = i2 + 1 + db.len();
    assert(body.len() == i3 + 1);
    assert(body[0] == '(');
    assert(body[i1] == ',');
    assert(body[i2] == ',');
    assert(body[i3] == ')');
    assert forall|j: int| 0 <= j < body.len() implies #[trigger] body[j] != ';' by {
        if 1 <= j < i1 {
            assert(body[j] == dr[j - 1]);
            assert(is_digit(dr[j - 1]));
        } else if i1 < j < i2 {
            assert(body[j] == dg[j - i1 - 1]);
            assert(is_digit(dg[j - i1 - 1]));
        } else if i2 < j < i3 {
            assert(body[j] == db[j - i2 - 1]);
            assert(is_digit(db[j - i2 - 1]));
        }
    }
    assert(body.subrange(1, i1) =~= dr);
    assert(body.subrange(i1 + 1, i2) =~= dg);
    assert(body.subrange(i2 + 1, i3) =~= db);
}

/// The value `:ws (r,g,b);` after `pre` is the color `c`.
#[verifier::rlimit(50)]
proof fn lemma_color_value(pre: Seq<char>, ws: Seq<char>, c: Color, tail: Seq<char>)
    requires
        all_white(ws),
    ensures
        value_at(value_text_at(pre, ws, color_text(c), tail), pre.len() as int) == Ok::<
            (ValueView, int),
            ParseError,
        >((ValueView::ColorValue(c), semicolon_at(pre, ws, color_text(c)))),
{
    let dr = decimal(c.r as nat);
    let dg = decimal(c.g as nat);
    let db = decimal(c.b as nat);
    lemma_decimal(c.r as nat);
    lemma_decimal(c.g as nat);
    lemma_decimal(c.b as nat);
    lemma_u8_of_decimal(c.r);
    lemma_u8_of_decimal(c.g);
    lemma_u8_of_decimal(c.b);
    lemma_color_text_shape(c);
    let body = color_text(c);
    let i1 = 1 + dr.len() as int;
    let i2 = i1 + 1 + dg.len();
    let i3 = i2 + 1 + db.len();
    lemma_value_runs(pre, ws, body, tail);
    let t = value_text_at(pre, ws, body, tail);
    let s = pre.len() as int + 1 + ws.len();
    let a = s + 1;
    let e1 = s + i1;
    let e2 = s + i2;
    let e3 = s + i3;
    assert(t[s + 0] == body[0]);
    assert forall|i: int| a <= i < e1 implies in_class(CharClass::Not(','), #[trigger] t[i]) by {
        assert(t[s + (i - s)] == body[i - s]);
        assert(body.subrange(1, i1)[i - a] == dr[i - a]);
        assert(is_digit(dr[i - a]));
    }
    assert(t[s + i1] == body[i1]);
    lemma_run_end_is(t, a, e1, CharClass::Not(','));
    assert forall|i: int| e1 + 1 <= i < e2 implies in_class(CharClass::Not(','), #[trigger] t[i]) by {
        assert(t[s + (i - s)] == body[i - s]);
        assert(body.subrange(i1 + 1, i2)[i - e1 - 1] == dg[i - e1 - 1]);
        assert(is_digit(dg[i - e1 - 1]));
    }
    assert(t[s + i2] == body[i2]);
    lemma_run_end_is(t, e1 + 1, e2, CharClass::Not(','));
    assert forall|i: int| e2 + 1 <= i < e3 implies in_class(CharClass::Not(')'), #[trigger] t[i]) by {
        assert(t[s + (i - s)] == body[i - s]);
        assert(body.subrange(i2 + 1, i3)[i - e2 - 1] == db[i - e2 - 1]);
        assert(is_digit(db[i - e2 - 1]));
    }
    assert(t[s + i3] == body[i3]);
    lemma_run_end_is(t, e2 + 1, e3, CharClass::Not(')'));
    assert(t.subrange(a, e1) =~= dr) by {
        assert forall|i: int| 0 <= i < dr.len() implies t.subrange(a, e1)[i] == dr[i] by {
            assert(t[s + (1 + i)] == body[1 + i]);
            assert(body.subrange(1, i1)[i] == dr[i]);
        }
    }
    assert(t.subrange(e1 + 1, e2) =~= dg) by {
        assert forall|i: int| 0 <= i < dg.len() implies t.subrange(e1 + 1, e2)[i] == dg[i] by {
            assert(t[s + (i1 + 1 + i)] == body[i1 + 1 + i]);
            assert(body.subrange(i1 + 1, i2)[i] == dg[i]);
        }
    }
    assert(t.subrange(e2 + 1, e3) =~= db) by {
        assert forall|i: int| 0 <= i < db.len() implies t.subrange(e2 + 1, e3)[i] == db[i] by {
            assert(t[s + (i2 + 1 + i)] == body[i2 + 1 + i]);
            assert(body.subrange(i2 + 1, i3)[i] == db[i]);
        }
    }
}

/// Leading whitespace, then a declaration `key:ws keyword;`, then any text: it
/// reads as the one-entry mapping from the key to that keyword, and stops just
/// before the text that follows the `;`.
pub proof fn law_keyword_declaration(
    ws0: Seq<char>,
    key: Seq<char>,
    ws1: Seq<char>,
    kw: Seq<char>,
    tail: Seq<char>,
)
    requires
        all_white(ws0),
        is_key(key),
        all_white(ws1),
        is_keyword(kw),
    ensures
        ({
            let t = declaration_text(ws0, key, ws1, kw, tail);
            let end = t.len() - tail.len();
            &&& argument_at(t, 0) == Ok::<(Seq<(Seq<char>, ValueView)>, int), ParseError>(
                (seq![(key, ValueView::Keyword(kw))], end),
            )
            &&& t.subrange(end, t.len() as int) == tail
        }),
        pairs_map(seq![(key, ValueView::Keyword(kw))]) == map![key => ValueView::Keyword(kw)],
{
    lemma_keyword_value(ws0 + key, ws1, kw, tail);
    lemma_value_runs(ws0 + key, ws1, kw, tail);
    lemma_single_pair(ws0, key, ws1, kw, tail, ValueView::Keyword(kw));
    lemma_pairs_map_single(key, ValueView::Keyword(kw));
}

/// Leading whitespace, then a declaration `key:ws (r,g,b);` with components in
/// 0..=255, then any text: it reads as the one-entry mapping from the key to that
/// color, and stops just before the text that follows the `;`.
pub proof fn law_color_declaration(
    ws0: Seq<char>,
    key: Seq<char>,
    ws1: Seq<char>,
    c: Color,
    tail: Seq<char>,
)
    requires
        all_white(ws0),
        is_key(key),
        all_white(ws1),
    ensures
        ({
            let t = declaration_text(ws0, key, ws1, color_text(c), tail);
            let end = t.len() - tail.len();
            &&& argument_at(t, 0) == Ok::<(Seq<(Seq<char>, ValueView)>, int), ParseError>(
                (seq![(key, ValueView::ColorValue(c))], end),
            )
            &&& t.subrange(end, t.len() as int) == tail
        }),
        pairs_map(seq![(key, ValueView::ColorValue(c))]) == map![key => ValueView::ColorValue(c)],
{
    lemma_color_value(ws0 + key, ws1, c, tail);
    lemma_color_text_runs(ws0 + key, ws1, c, tail);
    lemma_single_pair(ws0, key, ws1, color_text(c), tail, ValueView::ColorValue(c));
    lemma_pairs_map_single(key, ValueView::ColorValue(c));
}

proof fn lemma_color_text_runs(pre: Seq<char>, ws: Seq<char>, c: Color, tail: Seq<char>)
    requires
        all_white(ws),
    ensures
        ({
            let t = value_text_at(pre, ws, color_text(c), tail);
            let q = semicolon_at(pre, ws, color_text(c));
            &&& t.len() == q + 1 + tail.len()
            &&& t[q] == ';'
            &&& t.subrange(q + 1, t.len() as int) == tail
        }),
{
    let t = value_text_at(pre, ws, color_text(c), tail);
    let q = semicolon_at(pre, ws, color_text(c));
    assert(t[q] == ';');
    assert(t.subrange(q + 1, t.len() as int) =~= tail);
}

/// Leading whitespace, then a declaration `key:ws <number>px;`, then any text: it
/// reads as the one-entry mapping from the key to a size of exactly that
/// magnitude, and stops just before the text that follows the `;`.
pub proof fn law_size_declaration(
    ws0: Seq<char>,
    key: Seq<char>,
    ws1: Seq<char>,
    num: Number,
    tail: Seq<char>,
)
    requires
        all_white(ws0),
        is_key(key),
        all_white(ws1),
    ensures
        ({
            let t = declaration_text(ws0, key, ws1, size_text(num), tail);
            let end = t.len() - tail.len();
            &&& argument_at(t, 0) == Ok::<(Seq<(Seq<char>, ValueView)>, int), ParseError>(
                (seq![(key, ValueView::Size(num, Unit::Px))], end),
            )
            &&& t.subrange(end, t.len() as int) == tail
        }),
        pairs_map(seq![(key, ValueView::Size(num, Unit::Px))]) == map![key => ValueView::Size(num, Unit::Px)],
{
    lemma_number_value(ws0 + key, ws1, num, tail);
    lemma_single_pair(ws0, key, ws1, size_text(num), tail, ValueView::Size(num, Unit::Px));
    lemma_pairs_map_single(key, ValueView::Size(num, Unit::Px));
}

/// A text of whitespace alone is a stylesheet with no rules.
pub proof fn law_whitespace_is_empty_stylesheet(t: Seq<char>)
    requires
        forall|i: int| 0 <= i < t.len() ==> is_white_space(#[trigger] t[i]),
    ensures
        stylesheet_of(t) == Ok::<Seq<RuleView>, ParseError>(Seq::empty()),
{
    assert forall|i: int| 0 <= i < t.len() implies in_class(CharClass::Whitespace, #[trigger] t[i]) by {}
    lemma_run_end_is(t, 0, t.len() as int, CharClass::Whitespace);
}

/// A key run that starts at `p` holds only tag characters and stops at the end of
/// the text or at the first character that is not one.
pub proof fn law_key_run_stops_at_first_other(t: Seq<char>, p: int)
    requires
        0 <= p <= t.len(),
    ensures
        forall|i: int| p <= i < run_end(t, p, CharClass::TagChar) ==> is_tag_char(#[trigger] t[i]),
        run_end(t, p, CharClass::TagChar) == t.len() || !is_tag_char(
            t[run_end(t, p, CharClass::TagChar)],
        ),
{
    lemma_run_end_bounds(t, p, CharClass::TagChar);
    assert forall|i: int| p <= i < run_end(t, p, CharClass::TagChar) implies is_tag_char(
        #[trigger] t[i],
    ) by {
        assert(in_class(CharClass::TagChar, t[i]));
    }
}


proof fn lemma_extend_append(acc: int, a: Seq<char>, b: Seq<char>)
    ensures
        extend(acc, a + b) == extend(extend(acc, a), b),
    decreases b.len(),
{
    if b.len() == 0 {
        assert(a + b =~= a);
    } else {
        lemma_extend_append(acc, a, b.drop_last());
        assert((a + b).drop_last() =~= a + b.drop_last());
        assert((a + b).last() == b.last());
    }
}

/// `k` zero digits.
pub open spec fn zeros(k: nat) -> Seq<char> {
    Seq::new(k, |i: int| '0')
}

proof fn lemma_extend_zeros(k: nat)
    ensures
        extend(0, zeros(k)) == 0,
        all_digits(zeros(k)),
    decreases k,
{
    if k > 0 {
        lemma_extend_zeros((k - 1) as nat);
        assert(zeros(k).drop_last() =~= zeros((k - 1) as nat));
    }
}

/// The decimal numeral of `m`, with leading zeros up to `width` digits.
pub open spec fn padded(m: nat, width: nat) -> Seq<char> {
    if decimal(m).len() >= width {
        decimal(m)
    } else {
        zeros((width - decimal(m).len()) as nat) + decimal(m)
    }
}

proof fn lemma_padded(m: nat, width: nat)
    ensures
        padded(m, width).len() >= width,
        padded(m, width).len() > 0,
        all_digits(padded(m, width)),
        extend(0, padded(m, width)) == m,
{
    lemma_decimal(m);
    let d = decimal(m);
    if d.len() < width {
        let z = zeros((width - d.len()) as nat);
        lemma_extend_zeros((width - d.len()) as nat);
        lemma_extend_append(0, z, d);
        let p = z + d;
        assert forall|i: int| 0 <= i < p.len() implies is_digit(#[trigger] p[i]) by {
            if i < z.len() {
                assert(p[i] == z[i]);
            } else {
                assert(p[i] == d[i - z.len()]);
            }
        }
    }
}

/// The text of a decimal magnitude, with exactly `scale` digits after its point.
pub open spec fn number_text(n: Number) -> Seq<char> {
    if n.scale == 0 {
        decimal(n.mantissa as nat)
    } else {
        let d = padded(n.mantissa as nat, (n.scale + 1) as nat);
        d.subrange(0, d.len() - n.scale) + seq!['.'] + d.subrange(d.len() - n.scale, d.len() as int)
    }
}

/// The text of a size: its magnitude, then `px`.
pub open spec fn size_text(n: Number) -> Seq<char> {
    number_text(n) + seq!['p', 'x']
}

/// The text of a value, as a declaration writes it after its `:`.
pub open spec fn value_text(v: ValueView) -> Seq<char> {
    match v {
        ValueView::Keyword(k) => k,
        ValueView::Size(n, Unit::Px) => size_text(n),
        ValueView::ColorValue(c) => color_text(c),
    }
}

/// Whether a value has a text that reads back as it: a keyword must have the
/// shape of one; every size and color has.
pub open spec fn has_text(v: ValueView) -> bool {
    match v {
        ValueView::Keyword(k) => is_keyword(k),
        _ => true,
    }
}

/// The value `:ws <number>px;` after `pre` is that size.
proof fn lemma_number_value(pre: Seq<char>, ws: Seq<char>, num: Number, tail: Seq<char>)
    requires
        all_white(ws),
    ensures
        ({
            let t = value_text_at(pre, ws, size_text(num), tail);
            let q = semicolon_at(pre, ws, size_text(num));
            &&& value_at(t, pre.len() as int) == Ok::<(ValueView, int), ParseError>(
                (ValueView::Size(num, Unit::Px), q),
            )
            &&& t.len() == q + 1 + tail.len()
            &&& t[q] == ';'
            &&& t.subrange(q + 1, t.len() as int) == tail
        }),
{
    let d = if num.scale == 0 {
        decimal(num.mantissa as nat)
    } else {
        padded(num.mantissa as nat, (num.scale + 1) as nat)
    };
    lemma_decimal(num.mantissa as nat);
    lemma_padded(num.mantissa as nat, (num.scale + 1) as nat);
    let cut = d.len() - num.scale;
    let int_part = d.subrange(0, cut);
    let frac = d.subrange(cut, d.len() as int);
    let nt = number_text(num);
    let body = size_text(num);
    assert(int_part + frac =~= d);
    lemma_extend_append(0, int_part, frac);
    assert forall|i: int| 0 <= i < int_part.len() implies is_digit(#[trigger] int_part[i]) by {
        assert(int_part[i] == d[i]);
    }
    assert forall|i: int| 0 <= i < frac.len() implies is_digit(#[trigger] frac[i]) by {
        assert(frac[i] == d[cut + i]);
    }
    if num.scale == 0 {
        assert(nt =~= int_part);
    } else {
        assert(nt =~= int_part + seq!['.'] + frac);
    }
    assert(body[0] == int_part[0]);
    assert forall|j: int| 0 <= j < body.len() implies #[trigger] body[j] != ';' by {
        if j < int_part.len() {
            assert(body[j] == int_part[j]);
        } else if num.scale != 0 && j == int_part.len() {
            assert(body[j] == '.');
        } else if num.scale != 0 && j < nt.len() {
            assert(body[j] == frac[j - int_part.len() - 1]);
        } else {
            assert(j >= nt.len());
        }
    }
    lemma_value_runs(pre, ws, body, tail);
    let t = value_text_at(pre, ws, body, tail);
    let s = pre.len() as int + 1 + ws.len();
    assert(t[s + 0] == body[0]);
    assert(strip_px(body) =~= nt);
    assert forall|i: int| 0 <= i < int_part.len() implies in_class(
        CharClass::Not('.'),
        #[trigger] nt[i],
    ) by {
        assert(nt[i] == int_part[i]);
    }
    lemma_run_end_is(nt, 0, int_part.len() as int, CharClass::Not('.'));
    assert(nt.subrange(0, int_part.len() as int) =~= int_part);
    if num.scale != 0 {
        assert(nt.subrange(int_part.len() as int + 1, nt.len() as int) =~= frac);
    }
}

/// Reading the text of a value back, between a `:` and a `;`, gives that value
/// again and stops at the `;`.
pub proof fn law_value_text_reads_back(v: ValueView)
    requires
        has_text(v),
    ensures
        value_at(seq![':'] + value_text(v) + seq![';'], 0) == Ok::<(ValueView, int), ParseError>(
            (v, value_text(v).len() as int + 1),
        ),
{
    let e = Seq::<char>::empty();
    assert(value_text_at(e, e, value_text(v), e) =~= seq![':'] + value_text(v) + seq![';']);
    match v {
        ValueView::Keyword(k) => lemma_keyword_value(e, e, k, e),
        ValueView::Size(n, u) => lemma_number_value(e, e, n, e),
        ValueView::ColorValue(c) => lemma_color_value(e, e, c, e),
    }
}

} // verus!
