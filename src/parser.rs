use vstd::prelude::*;

verus! {

/// A class of characters that a scanner can skip over.
pub enum CharClass {
    /// Characters with the Unicode `White_Space` property.
    Whitespace,
    /// ASCII letters, ASCII digits, `_` and `-`.
    TagChar,
    /// Every character but the given one.
    Not(char),
}

/// The Unicode `White_Space` characters.
pub open spec fn is_white_space(c: char) -> bool {
    ('\t' <= c && c <= '\r') || c == ' ' || c == '\u{85}' || c == '\u{a0}' || c == '\u{1680}'
        || ('\u{2000}' <= c && c <= '\u{200a}') || c == '\u{2028}' || c == '\u{2029}'
        || c == '\u{202f}' || c == '\u{205f}' || c == '\u{3000}'
}

/// Characters allowed in a tag name or a declaration key.
pub open spec fn is_tag_char(c: char) -> bool {
    ('A' <= c && c <= 'Z') || ('a' <= c && c <= 'z') || ('0' <= c && c <= '9') || c == '_' || c
        == '-'
}

pub open spec fn in_class(k: CharClass, c: char) -> bool {
    match k {
        CharClass::Whitespace => is_white_space(c),
        CharClass::TagChar => is_tag_char(c),
        CharClass::Not(x) => c != x,
    }
}

/// Where a run of characters of class `k` that starts at `p` ends.
pub open spec fn run_end(t: Seq<char>, p: int, k: CharClass) -> int
    decreases t.len() - p,
{
    if 0 <= p < t.len() && in_class(k, t[p]) {
        run_end(t, p + 1, k)
    } else {
        p
    }
}

pub proof fn lemma_run_end_bounds(t: Seq<char>, p: int, k: CharClass)
    requires
        0 <= p <= t.len(),
    ensures
        p <= run_end(t, p, k) <= t.len(),
        run_end(t, p, k) == t.len() || !in_class(k, t[run_end(t, p, k)]),
        forall|i: int| p <= i < run_end(t, p, k) ==> in_class(k, #[trigger] t[i]),
    decreases t.len() - p,
{
    if p < t.len() && in_class(k, t[p]) {
        lemma_run_end_bounds(t, p + 1, k);
    }
}

/// A run that holds only characters of class `k` and is followed by the end or by
/// another character is the run that `run_end` describes.
pub proof fn lemma_run_end_is(t: Seq<char>, p: int, q: int, k: CharClass)
    requires
        0 <= p <= q <= t.len(),
        forall|i: int| p <= i < q ==> in_class(k, #[trigger] t[i]),
        q == t.len() || !in_class(k, t[q]),
    ensures
        run_end(t, p, k) == q,
    decreases q - p,
{
    if p < q {
        lemma_run_end_is(t, p + 1, q, k);
    }
}

/// A cursor over an immutable text, moving forward one character at a time.
pub trait Parser {
    /// The whole input.
    spec fn text(&self) -> Seq<char>;

    /// The number of characters consumed so far.
    spec fn cursor(&self) -> int;

    /// The current character, left in place.
    fn next_char(&self) -> (c: char)
        requires
            0 <= self.cursor() < self.text().len(),
        ensures
            c == self.text()[self.cursor()],
    ;

    /// Whether the rest of the input begins with `s`.
    fn starts_with(&self, s: &str) -> (r: bool)
        requires
            0 <= self.cursor() <= self.text().len(),
        ensures
            r == (self.cursor() + s@.len() <= self.text().len() && self.text().subrange(
                self.cursor(),
                self.cursor() + s@.len(),
            ) == s@),
    ;

    /// Whether no character is left.
    fn eof(&self) -> (r: bool)
        requires
            0 <= self.cursor() <= self.text().len(),
        ensures
            r == (self.cursor() >= self.text().len()),
    ;

    /// Returns the current character and moves past it.
    fn consume_char(&mut self) -> (c: char)
        requires
            0 <= old(self).cursor() < old(self).text().len(),
        ensures
            final(self).text() == old(self).text(),
            final(self).cursor() == old(self).cursor() + 1,
            c == old(self).text()[old(self).cursor()],
    ;

    /// Consumes the longest run of characters on which `test` holds, and returns it.
    fn consume_while<T>(&mut self, test: T) -> (r: String) where T: Fn(char) -> bool
        requires
            0 <= old(self).cursor() <= old(self).text().len(),
            forall|c: char| test.requires((c,)),
        ensures
            final(self).text() == old(self).text(),
            old(self).cursor() <= final(self).cursor() <= final(self).text().len(),
            r@ == old(self).text().subrange(old(self).cursor(), final(self).cursor()),
            forall|i: int|
                old(self).cursor() <= i < final(self).cursor() ==> test.ensures(
                    (#[trigger] old(self).text()[i],),
                    true,
                ),
            final(self).cursor() == old(self).text().len() || test.ensures(
                (old(self).text()[final(self).cursor()],),
                false,
            ),
    ;

    /// Skips the run of whitespace at the cursor.
    fn consume_whitespace(&mut self)
        requires
            0 <= old(self).cursor() <= old(self).text().len(),
        ensures
            final(self).text() == old(self).text(),
            final(self).cursor() == run_end(old(self).text(), old(self).cursor(), CharClass::Whitespace),
    ;
}

} // verus!
