//! The word rows of Tesseract's TSV output.
//!
//! Tesseract, run with the `tsv` output format, prints one header line and
//! then one line per layout element, its fields separated by tabs. Lines of
//! level 5 are words: fields 6 to 9 hold the word's left and top edge, width
//! and height in pixels, field 10 its confidence and field 11 its text.

use vstd::prelude::*;
use vstd::utf8::{decode_utf8, valid_utf8};

use crate::stdlib::{decode_lossy, utf8_lossy};

verus! {

/// Line feed.
pub const LF: u8 = 0x0a;

/// Carriage return.
pub const CR: u8 = 0x0d;

/// Horizontal tab, the field separator.
pub const TAB: u8 = 0x09;

/// The pieces of `s` between occurrences of `sep`, in order, as `str::split`
/// yields them: one more piece than there are separators.
pub open spec fn split_on(s: Seq<u8>, sep: u8) -> Seq<Seq<u8>>
    decreases s.len(),
{
    if s.len() == 0 {
        seq![Seq::empty()]
    } else {
        let prev = split_on(s.drop_last(), sep);
        if s.last() == sep {
            prev.push(Seq::empty())
        } else {
            prev.update(prev.len() - 1, prev.last().push(s.last()))
        }
    }
}

/// A split always yields at least one piece.
proof fn lemma_split_nonempty(s: Seq<u8>, sep: u8)
    ensures
        split_on(s, sep).len() >= 1,
    decreases s.len(),
{
    if s.len() > 0 {
        lemma_split_nonempty(s.drop_last(), sep);
    }
}

/// The byte ranges `[start, end)` of `s` from `from` to `to`, split at `sep`:
/// range `k` holds piece `k` of the split.
fn split_spans(s: &[u8], from: usize, to: usize, sep: u8) -> (spans: Vec<(usize, usize)>)
    requires
        from <= to <= s@.len(),
    ensures
        spans@.len() == split_on(s@.subrange(from as int, to as int), sep).len(),
        forall|k: int|
            0 <= k < spans@.len() ==> {
                &&& from <= (#[trigger] spans@[k]).0 <= spans@[k].1 <= to
                &&& s@.subrange(spans@[k].0 as int, spans@[k].1 as int) == split_on(
                    s@.subrange(from as int, to as int),
                    sep,
                )[k]
            },
{
    let mut spans: Vec<(usize, usize)> = Vec::new();
    let mut start: usize = from;
    let mut i: usize = from;
    assert(s@.subrange(from as int, from as int) =~= Seq::<u8>::empty());
    while i < to
        invariant
            from <= start <= i <= to <= s@.len(),
            spans@.len() + 1 == split_on(s@.subrange(from as int, i as int), sep).len(),
            forall|k: int|
                0 <= k < spans@.len() ==> {
                    &&& from <= (#[trigger] spans@[k]).0 <= spans@[k].1 <= i
                    &&& s@.subrange(spans@[k].0 as int, spans@[k].1 as int) == split_on(
                        s@.subrange(from as int, i as int),
                        sep,
                    )[k]
                },
            s@.subrange(start as int, i as int) == split_on(
                s@.subrange(from as int, i as int),
                sep,
            ).last(),
        decreases to - i,
    {
        let ghost prev = split_on(s@.subrange(from as int, i as int), sep);
        assert(s@.subrange(from as int, i + 1).drop_last() =~= s@.subrange(from as int, i as int));
        assert(s@.subrange(from as int, i + 1).last() == s@[i as int]);
        if s[i] == sep {
            spans.push((start, i));
            start = i + 1;
            assert(s@.subrange(start as int, (i + 1) as int) =~= Seq::<u8>::empty());
        } else {
            assert(s@.subrange(start as int, i + 1) =~= s@.subrange(start as int, i as int).push(
                s@[i as int],
            ));
        }
        i = i + 1;
    }
    spans.push((start, to));
    spans
}

/// A line that was ended by a line feed, without the carriage return that may
/// stand before that line feed.
pub open spec fn strip_cr(piece: Seq<u8>) -> Seq<u8> {
    if piece.len() > 0 && piece.last() == CR {
        piece.drop_last()
    } else {
        piece
    }
}

/// The lines of `s`, as `str::lines` yields them: the text between line
/// feeds, a carriage return before a line feed dropped; a last line without a
/// line feed is kept as it is, an empty one is no line.
pub open spec fn lines_of(s: Seq<u8>) -> Seq<Seq<u8>> {
    let pieces = split_on(s, LF);
    let ended = pieces.drop_last().map_values(|p: Seq<u8>| strip_cr(p));
    if pieces.last().len() == 0 {
        ended
    } else {
        ended.push(pieces.last())
    }
}

/// Splitting text that holds no separator yields the text itself.
pub proof fn lemma_split_without_sep(s: Seq<u8>, sep: u8)
    requires
        !s.contains(sep),
    ensures
        split_on(s, sep) == seq![s],
    decreases s.len(),
{
    if s.len() == 0 {
        assert(s =~= Seq::<u8>::empty());
    } else {
        assert(!s.drop_last().contains(sep)) by {
            if s.drop_last().contains(sep) {
                let i = choose|i: int| 0 <= i < s.drop_last().len() && s.drop_last()[i] == sep;
                assert(s[i] == sep);
            }
        }
        lemma_split_without_sep(s.drop_last(), sep);
        assert(s.last() != sep) by {
            assert(s[s.len() - 1] == s.last());
        }
        assert(s.drop_last().push(s.last()) =~= s);
    }
}

/// Splitting a first piece, a separator and the rest yields that piece, then
/// the pieces of the rest.
proof fn lemma_split_after_first(head: Seq<u8>, sep: u8, rest: Seq<u8>)
    requires
        !head.contains(sep),
    ensures
        split_on(head + seq![sep] + rest, sep) == seq![head] + split_on(rest, sep),
    decreases rest.len(),
{
    let s = head + seq![sep] + rest;
    if rest.len() == 0 {
        assert(s.drop_last() =~= head);
        lemma_split_without_sep(head, sep);
        assert(split_on(s, sep) =~= seq![head] + split_on(rest, sep));
    } else {
        assert(s.drop_last() =~= head + seq![sep] + rest.drop_last());
        lemma_split_after_first(head, sep, rest.drop_last());
        lemma_split_nonempty(rest.drop_last(), sep);
        assert(s.last() == rest.last());
        assert(split_on(s, sep) =~= seq![head] + split_on(rest, sep));
    }
}

/// Two texts joined by a separator split into the pieces of the first, then
/// the pieces of the second.
pub proof fn lemma_split_concat(first: Seq<u8>, sep: u8, second: Seq<u8>)
    ensures
        split_on(first + seq![sep] + second, sep) == split_on(first, sep) + split_on(second, sep),
    decreases second.len(),
{
    let s = first + seq![sep] + second;
    lemma_split_nonempty(first, sep);
    if second.len() == 0 {
        assert(s.drop_last() =~= first);
        assert(split_on(second, sep) =~= seq![Seq::<u8>::empty()]);
        assert(split_on(s, sep) =~= split_on(first, sep) + split_on(second, sep));
    } else {
        assert(s.drop_last() =~= first + seq![sep] + second.drop_last());
        assert(s.last() == second.last());
        lemma_split_concat(first, sep, second.drop_last());
        lemma_split_nonempty(second.drop_last(), sep);
        assert(split_on(s, sep) =~= split_on(first, sep) + split_on(second, sep));
    }
}

/// The pieces `pieces` put back together, a separator between each two.
pub open spec fn join_with(pieces: Seq<Seq<u8>>, sep: u8) -> Seq<u8>
    decreases pieces.len(),
{
    if pieces.len() == 0 {
        Seq::empty()
    } else if pieces.len() == 1 {
        pieces[0]
    } else {
        join_with(pieces.drop_last(), sep) + seq![sep] + pieces.last()
    }
}

/// No piece of a split holds the separator.
pub proof fn lemma_split_pieces_lack_sep(s: Seq<u8>, sep: u8)
    ensures
        forall|k: int| 0 <= k < split_on(s, sep).len() ==> !(#[trigger] split_on(s, sep)[k]).contains(sep),
    decreases s.len(),
{
    if s.len() > 0 {
        lemma_split_pieces_lack_sep(s.drop_last(), sep);
        lemma_split_nonempty(s.drop_last(), sep);
        let prev = split_on(s.drop_last(), sep);
        if s.last() != sep {
            let grown = prev.last().push(s.last());
            assert(!grown.contains(sep)) by {
                if grown.contains(sep) {
                    let i = choose|i: int| 0 <= i < grown.len() && grown[i] == sep;
                    assert(prev[prev.len() - 1].contains(sep)) by {
                        assert(prev.last()[i] == sep);
                    }
                }
            }
        } else {
            assert(!Seq::<u8>::empty().contains(sep));
        }
    }
}

/// Splitting pieces that hold no separator, joined by it, gives them back.
pub proof fn lemma_split_join(pieces: Seq<Seq<u8>>, sep: u8)
    requires
        pieces.len() >= 1,
        forall|k: int| 0 <= k < pieces.len() ==> !(#[trigger] pieces[k]).contains(sep),
    ensures
        split_on(join_with(pieces, sep), sep) == pieces,
    decreases pieces.len(),
{
    if pieces.len() == 1 {
        lemma_split_without_sep(pieces[0], sep);
        assert(seq![pieces[0]] =~= pieces);
    } else {
        let init = pieces.drop_last();
        assert forall|k: int| 0 <= k < init.len() implies !(#[trigger] init[k]).contains(sep) by {
            assert(init[k] == pieces[k]);
        }
        lemma_split_join(init, sep);
        assert(!pieces[pieces.len() - 1].contains(sep));
        lemma_split_without_sep(pieces.last(), sep);
        lemma_split_concat(join_with(init, sep), sep, pieces.last());
        assert(init + seq![pieces.last()] =~= pieces);
    }
}

/// Joining the pieces of a split gives back the text.
pub proof fn lemma_join_split(s: Seq<u8>, sep: u8)
    ensures
        join_with(split_on(s, sep), sep) == s,
    decreases s.len(),
{
    if s.len() == 0 {
        assert(s =~= Seq::<u8>::empty());
    } else {
        let prev = split_on(s.drop_last(), sep);
        lemma_join_split(s.drop_last(), sep);
        lemma_split_nonempty(s.drop_last(), sep);
        if s.last() == sep {
            let next = prev.push(Seq::<u8>::empty());
            assert(next.drop_last() =~= prev);
            assert(join_with(next, sep) =~= s.drop_last() + seq![sep] + Seq::<u8>::empty());
            assert(s.drop_last() + seq![sep] =~= s);
        } else {
            let next = prev.update(prev.len() - 1, prev.last().push(s.last()));
            if prev.len() == 1 {
                assert(join_with(next, sep) =~= s);
            } else {
                assert(next.drop_last() =~= prev.drop_last());
                assert(join_with(next, sep) =~= join_with(prev, sep).push(s.last()));
                assert(s.drop_last().push(s.last()) =~= s);
            }
        }
    }
}

/// The first line of a text, ended by a line feed, is that line without the
/// carriage return before the line feed; the lines after it are those of the
/// rest.
pub proof fn lemma_lines_first(line: Seq<u8>, rest: Seq<u8>)
    requires
        !line.contains(LF),
    ensures
        lines_of(line + seq![LF] + rest) == seq![strip_cr(line)] + lines_of(rest),
{
    let s = line + seq![LF] + rest;
    lemma_split_concat(line, LF, rest);
    lemma_split_without_sep(line, LF);
    lemma_split_nonempty(rest, LF);
    let pieces = split_on(s, LF);
    let after = split_on(rest, LF);
    assert(pieces =~= seq![line] + after);
    assert(pieces.last() == after.last());
    assert(pieces.drop_last() =~= seq![line] + after.drop_last());
    assert(lines_of(s) =~= seq![strip_cr(line)] + lines_of(rest));
}

/// A text without line feed is a single line, kept as it is; an empty text
/// has no line.
pub proof fn lemma_lines_single(line: Seq<u8>)
    requires
        !line.contains(LF),
    ensures
        line.len() > 0 ==> lines_of(line) == seq![line],
        line.len() == 0 ==> lines_of(line).len() == 0,
{
    lemma_split_without_sep(line, LF);
    assert(split_on(line, LF).drop_last() =~= Seq::<Seq<u8>>::empty());
    if line.len() > 0 {
        assert(lines_of(line) =~= seq![line]);
    }
}

/// The byte ranges of the lines of `s`.
fn line_spans(s: &[u8]) -> (spans: Vec<(usize, usize)>)
    ensures
        spans@.len() == lines_of(s@).len(),
        forall|k: int|
            0 <= k < spans@.len() ==> {
                &&& (#[trigger] spans@[k]).0 <= spans@[k].1 <= s@.len()
                &&& s@.subrange(spans@[k].0 as int, spans@[k].1 as int) == lines_of(s@)[k]
            },
{
    let pieces = split_spans(s, 0, s.len(), LF);
    let ghost split = split_on(s@, LF);
    assert(s@.subrange(0, s@.len() as int) =~= s@);
    proof {
        lemma_split_nonempty(s@, LF);
    }
    let count: usize = pieces.len();
    let mut spans: Vec<(usize, usize)> = Vec::new();
    let mut k: usize = 0;
    while k + 1 < count
        invariant
            count == pieces@.len() == split.len() >= 1,
            split == split_on(s@, LF),
            k <= count - 1,
            spans@.len() == k,
            forall|j: int|
                0 <= j < pieces@.len() ==> {
                    &&& (#[trigger] pieces@[j]).0 <= pieces@[j].1 <= s@.len()
                    &&& s@.subrange(pieces@[j].0 as int, pieces@[j].1 as int) == split[j]
                },
            forall|j: int|
                0 <= j < k ==> {
                    &&& (#[trigger] spans@[j]).0 <= spans@[j].1 <= s@.len()
                    &&& s@.subrange(spans@[j].0 as int, spans@[j].1 as int) == strip_cr(split[j])
                },
        decreases count - k,
    {
        let (a, b): (usize, usize) = pieces[k];
        if a < b && s[b - 1] == CR {
            assert(s@.subrange(a as int, b - 1) =~= s@.subrange(a as int, b as int).drop_last());
            spans.push((a, b - 1));
        } else {
            spans.push((a, b));
        }
        k = k + 1;
    }
    let (a, b): (usize, usize) = pieces[count - 1];
    if a < b {
        spans.push((a, b));
    }
    assert(spans@.len() == lines_of(s@).len());
    assert forall|j: int| 0 <= j < spans@.len() implies {
        &&& (#[trigger] spans@[j]).0 <= spans@[j].1 <= s@.len()
        &&& s@.subrange(spans@[j].0 as int, spans@[j].1 as int) == lines_of(s@)[j]
    } by {
        if j < count - 1 {
            assert(split.drop_last()[j] == split[j]);
        }
    }
    spans
}

/// The sign that may lead an unsigned decimal number.
pub const PLUS: u8 = 0x2b;

/// The digit `0`.
pub const DIGIT_ZERO: u8 = 0x30;

/// The digit `9`.
pub const DIGIT_NINE: u8 = 0x39;

/// Whether a byte is an ASCII decimal digit.
pub open spec fn is_digit(b: u8) -> bool {
    DIGIT_ZERO <= b <= DIGIT_NINE
}

/// Whether every byte of `d` is a decimal digit.
pub open spec fn all_digits(d: Seq<u8>) -> bool {
    forall|i: int| 0 <= i < d.len() ==> is_digit(#[trigger] d[i])
}

/// The value of a string of decimal digits.
pub open spec fn digits_value(d: Seq<u8>) -> nat
    decreases d.len(),
{
    if d.len() == 0 {
        0
    } else {
        digits_value(d.drop_last()) * 10 + (d.last() - DIGIT_ZERO) as nat
    }
}

/// The digits of a number, past the one `+` that may lead it.
pub open spec fn unsigned_digits(s: Seq<u8>) -> Seq<u8> {
    if s.len() > 0 && s[0] == PLUS {
        s.drop_first()
    } else {
        s
    }
}

/// What `str::parse::<u32>` makes of `s`: an optional `+`, then one or more
/// decimal digits whose value fits in a `u32`; anything else is no number.
pub open spec fn parse_u32_spec(s: Seq<u8>) -> Option<u32> {
    let d = unsigned_digits(s);
    if d.len() > 0 && all_digits(d) && digits_value(d) <= u32::MAX {
        Some(digits_value(d) as u32)
    } else {
        None
    }
}

/// A string of digits is worth at least as much as each of its prefixes.
proof fn lemma_digits_value_prefix(d: Seq<u8>, k: int)
    requires
        0 <= k <= d.len(),
        all_digits(d),
    ensures
        digits_value(d.take(k)) <= digits_value(d),
    decreases d.len(),
{
    if k < d.len() {
        assert(all_digits(d.drop_last()));
        assert(d.drop_last().take(k) =~= d.take(k));
        lemma_digits_value_prefix(d.drop_last(), k);
    } else {
        assert(d.take(k) =~= d);
    }
}

/// The usual decimal spelling of `n`: its digits, most significant first,
/// without leading zeros.
pub open spec fn decimal(n: nat) -> Seq<u8>
    decreases n,
{
    if n < 10 {
        seq![(DIGIT_ZERO + n) as u8]
    } else {
        decimal(n / 10).push((DIGIT_ZERO + n % 10) as u8)
    }
}

proof fn lemma_decimal_digits(n: nat)
    ensures
        decimal(n).len() > 0,
        all_digits(decimal(n)),
        digits_value(decimal(n)) == n,
        decimal(n)[0] != PLUS,
    decreases n,
{
    let d = decimal(n);
    if n < 10 {
        assert(d.drop_last() =~= Seq::<u8>::empty());
        assert(digits_value(Seq::<u8>::empty()) == 0);
        assert(d.last() == (DIGIT_ZERO + n) as u8);
        assert(digits_value(d) == digits_value(d.drop_last()) * 10 + (d.last() - DIGIT_ZERO) as nat);
    } else {
        lemma_decimal_digits(n / 10);
        assert(d.drop_last() =~= decimal(n / 10));
        assert(n % 10 < 10);
        assert(d.last() == (DIGIT_ZERO + n % 10) as u8);
        assert(n == (n / 10) * 10 + n % 10) by (nonlinear_arith);
        assert(digits_value(d) == digits_value(decimal(n / 10)) * 10 + (d.last() - DIGIT_ZERO) as nat);
        assert forall|i: int| 0 <= i < d.len() implies is_digit(#[trigger] d[i]) by {
            if i < d.len() - 1 {
                assert(d[i] == decimal(n / 10)[i]);
            }
        }
        assert(d[0] == decimal(n / 10)[0]);
    }
}

/// A number spelled in decimal, with or without a leading `+`, reads as that
/// number where it fits in a `u32`, and as no number where it does not.
pub proof fn lemma_parse_decimal(n: nat)
    ensures
        n <= u32::MAX ==> parse_u32_spec(decimal(n)) == Some(n as u32),
        n <= u32::MAX ==> parse_u32_spec(seq![PLUS] + decimal(n)) == Some(n as u32),
        n > u32::MAX ==> parse_u32_spec(decimal(n)) is None,
        n > u32::MAX ==> parse_u32_spec(seq![PLUS] + decimal(n)) is None,
{
    lemma_decimal_digits(n);
    assert((seq![PLUS] + decimal(n)).drop_first() =~= decimal(n));
}

/// Leading zeros change nothing.
pub proof fn lemma_parse_leading_zero(d: Seq<u8>)
    requires
        d.len() > 0,
        d[0] != PLUS,
    ensures
        parse_u32_spec(seq![DIGIT_ZERO] + d) == parse_u32_spec(d),
    decreases d.len(),
{
    lemma_zero_prefix_value(d);
    let z = seq![DIGIT_ZERO] + d;
    assert(all_digits(z) == all_digits(d)) by {
        if all_digits(d) {
            assert forall|i: int| 0 <= i < z.len() implies is_digit(#[trigger] z[i]) by {
                if i > 0 {
                    assert(z[i] == d[i - 1]);
                }
            }
        }
        if all_digits(z) {
            assert forall|i: int| 0 <= i < d.len() implies is_digit(#[trigger] d[i]) by {
                assert(z[i + 1] == d[i]);
            }
        }
    }
}

proof fn lemma_zero_prefix_value(d: Seq<u8>)
    ensures
        digits_value(seq![DIGIT_ZERO] + d) == digits_value(d),
    decreases d.len(),
{
    let z = seq![DIGIT_ZERO] + d;
    if d.len() == 0 {
        assert(z.drop_last() =~= Seq::<u8>::empty());
        assert(digits_value(Seq::<u8>::empty()) == 0);
        assert(z.last() == DIGIT_ZERO);
        assert(d =~= Seq::<u8>::empty());
    } else {
        assert(z.drop_last() =~= seq![DIGIT_ZERO] + d.drop_last());
        assert(z.last() == d.last());
        lemma_zero_prefix_value(d.drop_last());
    }
}

/// A sign other than one leading `+` makes no number.
pub proof fn lemma_parse_rejects_minus(d: Seq<u8>)
    ensures
        parse_u32_spec(seq![0x2du8] + d) is None,
        parse_u32_spec(seq![PLUS, PLUS] + d) is None,
{
    let m = seq![0x2du8] + d;
    assert(!is_digit(m[0]));
    let p = (seq![PLUS, PLUS] + d).drop_first();
    assert(p[0] == PLUS);
    assert(!is_digit(p[0]));
}

/// The number that the bytes of `s` from `from` to `to` spell, as
/// `str::parse::<u32>` reads it.
pub fn parse_decimal_u32(s: &[u8], from: usize, to: usize) -> (r: Option<u32>)
    requires
        from <= to <= s@.len(),
    ensures
        r == parse_u32_spec(s@.subrange(from as int, to as int)),
{
    let ghost f = s@.subrange(from as int, to as int);
    let mut i: usize = from;
    if from < to && s[from] == PLUS {
        i = from + 1;
    }
    let ghost d = s@.subrange(i as int, to as int);
    assert(d =~= unsigned_digits(f));
    if i == to {
        return None;
    }
    let first: usize = i;
    let mut value: u64 = 0;
    assert(d.take(0) =~= Seq::<u8>::empty());
    while i < to
        invariant
            first <= i <= to <= s@.len(),
            d == s@.subrange(first as int, to as int),
            d == unsigned_digits(f),
            d.len() > 0,
            f == s@.subrange(from as int, to as int),
            forall|j: int| 0 <= j < i - first ==> is_digit(#[trigger] d[j]),
            value == digits_value(d.take(i - first)),
            value <= u32::MAX,
        decreases to - i,
    {
        let b: u8 = s[i];
        if b < DIGIT_ZERO || b > DIGIT_NINE {
            assert(!is_digit(d[i - first]));
            return None;
        }
        assert(d.take(i - first + 1).drop_last() =~= d.take(i - first));
        let next: u64 = value * 10 + (b - DIGIT_ZERO) as u64;
        assert(next == digits_value(d.take(i - first + 1)));
        if next > 0xffff_ffff {
            proof {
                if all_digits(d) {
                    lemma_digits_value_prefix(d, i - first + 1);
                }
            }
            return None;
        }
        value = next;
        i = i + 1;
    }
    assert(d.take(to - first) =~= d);
    Some(value as u32)
}

/// The digit `5`: the layout level of a word.
pub const WORD_LEVEL: u8 = 0x35;

/// One word row of Tesseract's TSV output.
#[derive(Debug, Clone)]
pub struct TsvRow {
    /// Left edge in pixels.
    pub left: u32,
    /// Top edge in pixels.
    pub top: u32,
    /// Width in pixels.
    pub width: u32,
    /// Height in pixels.
    pub height: u32,
    /// The confidence field, as text.
    pub confidence: String,
    /// The recognized text.
    pub text: String,
}

/// The content of a word row.
pub struct TsvRowView {
    pub left: u32,
    pub top: u32,
    pub width: u32,
    pub height: u32,
    pub confidence: Seq<char>,
    pub text: Seq<char>,
}

impl View for TsvRow {
    type V = TsvRowView;

    open spec fn view(&self) -> TsvRowView {
        TsvRowView {
            left: self.left,
            top: self.top,
            width: self.width,
            height: self.height,
            confidence: self.confidence@,
            text: self.text@,
        }
    }
}

/// A numeric field: its number, or 0 where it holds none.
pub open spec fn field_u32(f: Seq<u8>) -> u32 {
    match parse_u32_spec(f) {
        Some(v) => v,
        None => 0,
    }
}

/// The text of a field: its UTF-8 decoding where it is valid UTF-8, else what
/// lossy decoding makes of it.
pub open spec fn field_text(f: Seq<u8>) -> Seq<char> {
    if valid_utf8(f) {
        decode_utf8(f)
    } else {
        utf8_lossy(f)
    }
}

/// Whether the fields of a line make a word row: at least 12 fields, the
/// first of them the level `5`.
pub open spec fn is_word_row(fields: Seq<Seq<u8>>) -> bool {
    fields.len() >= 12 && fields[0] == seq![WORD_LEVEL]
}

/// The word row that a line holds, if it holds one.
pub open spec fn row_of_line(line: Seq<u8>) -> Option<TsvRowView> {
    let f = split_on(line, TAB);
    if is_word_row(f) {
        Some(
            TsvRowView {
                left: field_u32(f[6]),
                top: field_u32(f[7]),
                width: field_u32(f[8]),
                height: field_u32(f[9]),
                confidence: field_text(f[10]),
                text: field_text(f[11]),
            },
        )
    } else {
        None
    }
}

/// A numeric field spelling a number that fits reads as that number; a field
/// that spells none reads as 0.
pub proof fn lemma_field_u32(n: nat, f: Seq<u8>)
    ensures
        n <= u32::MAX ==> field_u32(decimal(n)) == n,
        parse_u32_spec(f) is None ==> field_u32(f) == 0,
{
    lemma_parse_decimal(n);
}

/// A line ended by a carriage return and line feed loses just the carriage
/// return; a line without it is kept whole.
pub proof fn lemma_strip_cr(line: Seq<u8>)
    ensures
        strip_cr(line.push(CR)) == line,
        line.len() == 0 || line.last() != CR ==> strip_cr(line) == line,
{
    assert(line.push(CR).drop_last() =~= line);
}

/// A line made of at least 12 tab-free fields, the first of them `5`, is the
/// word row of its fields 6 to 11; a line with fewer fields or another level
/// is no word row.
pub proof fn lemma_row_of_fields(fields: Seq<Seq<u8>>)
    requires
        fields.len() >= 1,
        forall|k: int| 0 <= k < fields.len() ==> !(#[trigger] fields[k]).contains(TAB),
    ensures
        fields.len() >= 12 && fields[0] == seq![WORD_LEVEL] ==> row_of_line(join_with(fields, TAB))
            == Some(
            TsvRowView {
                left: field_u32(fields[6]),
                top: field_u32(fields[7]),
                width: field_u32(fields[8]),
                height: field_u32(fields[9]),
                confidence: field_text(fields[10]),
                text: field_text(fields[11]),
            },
        ),
        fields.len() < 12 || fields[0] != seq![WORD_LEVEL] ==> row_of_line(
            join_with(fields, TAB),
        ) is None,
{
    lemma_split_join(fields, TAB);
}

/// The word rows of a run of lines, in order.
pub open spec fn rows_of_lines(lines: Seq<Seq<u8>>) -> Seq<TsvRowView>
    decreases lines.len(),
{
    if lines.len() == 0 {
        Seq::empty()
    } else {
        let prev = rows_of_lines(lines.drop_last());
        match row_of_line(lines.last()) {
            Some(r) => prev.push(r),
            None => prev,
        }
    }
}

/// The word rows of a TSV text: those of its lines after the first, the
/// header.
pub open spec fn tsv_word_rows(s: Seq<u8>) -> Seq<TsvRowView> {
    let lines = lines_of(s);
    if lines.len() == 0 {
        Seq::empty()
    } else {
        rows_of_lines(lines.subrange(1, lines.len() as int))
    }
}

/// The word row held by the bytes of `s` from `from` to `to`, if they hold one.
fn row_of_span(s: &[u8], from: usize, to: usize) -> (r: Option<TsvRow>)
    requires
        from <= to <= s@.len(),
    ensures
        match r {
            Some(row) => row_of_line(s@.subrange(from as int, to as int)) == Some(row@),
            None => row_of_line(s@.subrange(from as int, to as int)).is_none(),
        },
{
    let fields = split_spans(s, from, to, TAB);
    let ghost f = split_on(s@.subrange(from as int, to as int), TAB);
    if fields.len() < 12 {
        return None;
    }
    let (a0, b0): (usize, usize) = fields[0];
    if !(b0 - a0 == 1 && s[a0] == WORD_LEVEL) {
        proof {
            if f[0] == seq![WORD_LEVEL] {
                assert(s@.subrange(a0 as int, b0 as int)[0] == s@[a0 as int]);
            }
        }
        return None;
    }
    assert(f[0] =~= seq![WORD_LEVEL]);
    let (a6, b6): (usize, usize) = fields[6];
    let (a7, b7): (usize, usize) = fields[7];
    let (a8, b8): (usize, usize) = fields[8];
    let (a9, b9): (usize, usize) = fields[9];
    let (a10, b10): (usize, usize) = fields[10];
    let (a11, b11): (usize, usize) = fields[11];
    let left: u32 = match parse_decimal_u32(s, a6, b6) {
        Some(v) => v,
        None => 0,
    };
    let top: u32 = match parse_decimal_u32(s, a7, b7) {
        Some(v) => v,
        None => 0,
    };
    let width: u32 = match parse_decimal_u32(s, a8, b8) {
        Some(v) => v,
        None => 0,
    };
    let height: u32 = match parse_decimal_u32(s, a9, b9) {
        Some(v) => v,
        None => 0,
    };
    let confidence = decode_lossy(vstd::slice::slice_subrange(s, a10, b10));
    let text = decode_lossy(vstd::slice::slice_subrange(s, a11, b11));
    Some(TsvRow { left, top, width, height, confidence, text })
}

/// The bounding box of a row: `[left, top, left + width, top + height]`.
pub open spec fn row_bbox(r: TsvRowView) -> Seq<u32> {
    seq![r.left, r.top, (r.left + r.width) as u32, (r.top + r.height) as u32]
}

/// Whether a row's right and bottom edges fit in a `u32`.
pub open spec fn row_fits(r: TsvRowView) -> bool {
    r.left + r.width <= u32::MAX && r.top + r.height <= u32::MAX
}

impl TsvRow {
    /// The word's bounding box `[x1, y1, x2, y2]`; its corners are in order.
    pub fn bbox(&self) -> (b: [u32; 4])
        requires
            row_fits(self@),
        ensures
            b@ == row_bbox(self@),
            crate::model::bbox_ordered(b@),
    {
        [self.left, self.top, self.left + self.width, self.top + self.height]
    }
}

/// A word line adds its row after the rows before it; any other line adds
/// nothing.
pub proof fn lemma_rows_push(lines: Seq<Seq<u8>>, line: Seq<u8>)
    ensures
        rows_of_lines(lines.push(line)) == match row_of_line(line) {
            Some(r) => rows_of_lines(lines).push(r),
            None => rows_of_lines(lines),
        },
{
    assert(lines.push(line).drop_last() =~= lines);
}

/// The rows of two runs of lines, one after the other, are the rows of the
/// first run followed by those of the second: every word line counts, however
/// many came before it.
pub proof fn lemma_rows_concat(first: Seq<Seq<u8>>, second: Seq<Seq<u8>>)
    ensures
        rows_of_lines(first + second) == rows_of_lines(first) + rows_of_lines(second),
    decreases second.len(),
{
    if second.len() == 0 {
        assert(first + second =~= first);
        assert(rows_of_lines(first) + rows_of_lines(second) =~= rows_of_lines(first));
    } else {
        assert((first + second).drop_last() =~= first + second.drop_last());
        assert((first + second).last() == second.last());
        lemma_rows_concat(first, second.drop_last());
        match row_of_line(second.last()) {
            Some(r) => {
                assert(rows_of_lines(first) + rows_of_lines(second.drop_last()).push(r)
                    =~= (rows_of_lines(first) + rows_of_lines(second.drop_last())).push(r));
            },
            None => {},
        }
    }
}

/// There are exactly as many rows as word lines.
pub proof fn lemma_rows_count(lines: Seq<Seq<u8>>)
    ensures
        rows_of_lines(lines).len() == lines.filter(|l: Seq<u8>| row_of_line(l) is Some).len(),
    decreases lines.len(),
{
    reveal_with_fuel(Seq::filter, 1);
    if lines.len() > 0 {
        lemma_rows_count(lines.drop_last());
    }
}

/// The rows are, in order, the rows of the word lines: row `k` is the row of
/// the `k`-th word line.
pub proof fn lemma_rows_are_word_lines(lines: Seq<Seq<u8>>)
    ensures
        rows_of_lines(lines) == lines.filter(|l: Seq<u8>| row_of_line(l) is Some).map_values(
            |l: Seq<u8>| row_of_line(l).unwrap(),
        ),
    decreases lines.len(),
{
    reveal_with_fuel(Seq::filter, 1);
    if lines.len() > 0 {
        lemma_rows_are_word_lines(lines.drop_last());
        let pred = |l: Seq<u8>| row_of_line(l) is Some;
        let f = |l: Seq<u8>| row_of_line(l).unwrap();
        let sub = lines.drop_last().filter(pred);
        if pred(lines.last()) {
            assert(sub.push(lines.last()).map_values(f) =~= sub.map_values(f).push(f(lines.last())));
        }
    }
}

/// Whatever the header line holds, the word rows are those of the lines that
/// follow it.
pub proof fn lemma_header_ignored(header: Seq<u8>, body: Seq<u8>)
    requires
        !header.contains(LF),
    ensures
        tsv_word_rows(header + seq![LF] + body) == rows_of_lines(lines_of(body)),
{
    let s = header + seq![LF] + body;
    lemma_split_after_first(header, LF, body);
    lemma_split_nonempty(body, LF);
    let pieces = split_on(s, LF);
    let rest = split_on(body, LF);
    assert(pieces.last() == rest.last());
    assert(pieces.drop_last() =~= seq![header] + rest.drop_last());
    let lines = lines_of(s);
    assert(lines =~= seq![strip_cr(header)] + lines_of(body));
    assert(lines.subrange(1, lines.len() as int) =~= lines_of(body));
}

/// The word rows of Tesseract's TSV output `tsv`, in order: every line after
/// the header whose level field is `5` and that has at least 12 fields; a
/// numeric field that holds no number reads as 0.
pub fn parse_word_rows(tsv: &[u8]) -> (rows: Vec<TsvRow>)
    ensures
        rows@.map_values(|r: TsvRow| r@) == tsv_word_rows(tsv@),
        lines_of(tsv@).len() > 0 ==> rows@.len() == lines_of(tsv@).subrange(
            1,
            lines_of(tsv@).len() as int,
        ).filter(|l: Seq<u8>| row_of_line(l) is Some).len(),
{
    let spans = line_spans(tsv);
    let ghost lines = lines_of(tsv@);
    let mut rows: Vec<TsvRow> = Vec::new();
    if spans.len() == 0 {
        assert(rows@.map_values(|r: TsvRow| r@) =~= Seq::<TsvRowView>::empty());
        return rows;
    }
    let mut k: usize = 1;
    assert(lines.subrange(1, 1) =~= Seq::<Seq<u8>>::empty());
    assert(rows@.map_values(|r: TsvRow| r@) =~= Seq::<TsvRowView>::empty());
    while k < spans.len()
        invariant
            1 <= k <= spans@.len(),
            spans@.len() == lines.len(),
            lines == lines_of(tsv@),
            forall|j: int|
                0 <= j < spans@.len() ==> {
                    &&& (#[trigger] spans@[j]).0 <= spans@[j].1 <= tsv@.len()
                    &&& tsv@.subrange(spans@[j].0 as int, spans@[j].1 as int) == lines[j]
                },
            rows@.map_values(|r: TsvRow| r@) == rows_of_lines(lines.subrange(1, k as int)),
        decreases spans@.len() - k,
    {
        let (a, b): (usize, usize) = spans[k];
        let ghost before = rows@;
        assert(lines.subrange(1, k + 1).drop_last() =~= lines.subrange(1, k as int));
        assert(lines.subrange(1, k + 1).last() == lines[k as int]);
        match row_of_span(tsv, a, b) {
            Some(row) => {
                rows.push(row);
                assert(rows@.map_values(|r: TsvRow| r@) =~= before.map_values(|r: TsvRow| r@).push(
                    row@,
                ));
            },
            None => {},
        }
        k = k + 1;
    }
    proof {
        lemma_rows_count(lines.subrange(1, lines.len() as int));
        assert(lines.subrange(1, k as int) == lines.subrange(1, lines.len() as int));
        assert(rows@.map_values(|r: TsvRow| r@).len() == rows@.len());
    }
    rows
}

} // verus!
