//! The text format of the element catalog: one element per line, written
//! `Symbol\-Name\-R,G,B`, with optional whitespace around each part.
use vstd::prelude::*;

use crate::elements::{Element, ElementType, Id};

verus! {

/// The characters with the Unicode White_Space property, which
/// `char::is_whitespace` tests for.
pub open spec fn is_space(c: char) -> bool {
    let v = c as u32;
    (0x9 <= v <= 0xD) || v == 0x20 || v == 0x85 || v == 0xA0 || v == 0x1680 || (0x2000 <= v <= 0x200A)
        || v == 0x2028 || v == 0x2029 || v == 0x202F || v == 0x205F || v == 0x3000
}

fn is_whitespace(c: char) -> (r: bool)
    ensures
        r == is_space(c),
{
    let v = c as u32;
    (0x9 <= v && v <= 0xD) || v == 0x20 || v == 0x85 || v == 0xA0 || v == 0x1680 || (0x2000 <= v && v <= 0x200A)
        || v == 0x2028 || v == 0x2029 || v == 0x202F || v == 0x205F || v == 0x3000
}

pub open spec fn trim_start(s: Seq<char>) -> Seq<char>
    decreases s.len(),
{
    if s.len() > 0 && is_space(s[0]) {
        trim_start(s.drop_first())
    } else {
        s
    }
}

pub open spec fn trim_end(s: Seq<char>) -> Seq<char>
    decreases s.len(),
{
    if s.len() > 0 && is_space(s.last()) {
        trim_end(s.drop_last())
    } else {
        s
    }
}

/// `s` without leading and trailing whitespace.
pub open spec fn trimmed(s: Seq<char>) -> Seq<char> {
    trim_end(trim_start(s))
}

pub open spec fn occurs_at(s: Seq<char>, i: int, sep: Seq<char>) -> bool {
    0 <= i && i + sep.len() <= s.len() && s.subrange(i, i + sep.len()) == sep
}

/// Pieces of `s` from `start` on, cut at the occurrences of `sep` found by
/// scanning left to right from `i`; after an occurrence the scan resumes
/// behind it.
pub open spec fn split_scan(s: Seq<char>, sep: Seq<char>, start: int, i: int) -> Seq<Seq<char>>
    recommends
        sep.len() > 0,
        0 <= start <= i,
    decreases s.len() - i,
{
    if sep.len() == 0 || i < 0 || i + sep.len() > s.len() {
        seq![s.subrange(start, s.len() as int)]
    } else if occurs_at(s, i, sep) {
        seq![s.subrange(start, i)] + split_scan(s, sep, i + sep.len(), i + sep.len())
    } else {
        split_scan(s, sep, start, i + 1)
    }
}

/// The pieces between occurrences of `sep`, as `str::split` yields them.
pub open spec fn split_on(s: Seq<char>, sep: Seq<char>) -> Seq<Seq<char>> {
    split_scan(s, sep, 0, 0)
}

pub open spec fn trim_each(ps: Seq<Seq<char>>) -> Seq<Seq<char>> {
    ps.map_values(|p: Seq<char>| trimmed(p))
}

pub open spec fn char_views(v: Seq<Vec<char>>) -> Seq<Seq<char>> {
    v.map_values(|p: Vec<char>| p@)
}

pub open spec fn trimmed_pieces(s: Seq<char>, sep: Seq<char>) -> Seq<Seq<char>> {
    trim_each(split_on(s, sep))
}

pub open spec fn part_separator() -> Seq<char> {
    seq!['\\', '-']
}

/// The trimmed parts of a catalog line.
pub open spec fn line_fields(line: Seq<char>) -> Seq<Seq<char>> {
    trimmed_pieces(line, part_separator())
}

/// The trimmed components of the color part of a catalog line.
pub open spec fn color_fields(line: Seq<char>) -> Seq<Seq<char>> {
    trimmed_pieces(line_fields(line)[2], seq![','])
}

pub open spec fn is_digit(c: char) -> bool {
    '0' <= c <= '9'
}

pub open spec fn digits_value(d: Seq<char>) -> int
    decreases d.len(),
{
    if d.len() == 0 {
        0
    } else {
        digits_value(d.drop_last()) * 10 + (d.last() as int - '0' as int)
    }
}

/// What `str::parse::<u8>` accepts: an optional `+`, then one or more
/// decimal digits whose value is at most 255.
pub open spec fn parse_byte(s: Seq<char>) -> Option<u8> {
    let d = unsigned_digits(s);
    if d.len() > 0 && all_digits(d) && digits_value(d) <= 255 {
        Some(digits_value(d) as u8)
    } else {
        None
    }
}

/// `s` without one leading `+`.
pub open spec fn unsigned_digits(s: Seq<char>) -> Seq<char> {
    if s.len() > 0 && s[0] == '+' {
        s.drop_first()
    } else {
        s
    }
}

pub open spec fn all_digits(d: Seq<char>) -> bool {
    forall|i: int| 0 <= i < d.len() ==> is_digit(#[trigger] d[i])
}

pub open spec fn symbol_id(s: Seq<char>) -> Option<Id> {
    if s.len() == 1 {
        Some(Id::Single(s[0]))
    } else if s.len() == 2 {
        Some(Id::Double(s[0], s[1]))
    } else {
        None
    }
}

/// Not blank, at least three parts, and three color components.
pub open spec fn well_shaped(line: Seq<char>) -> bool {
    trimmed(line).len() > 0 && line_fields(line).len() >= 3 && color_fields(line).len() == 3
}

pub open spec fn colors_readable(line: Seq<char>) -> bool {
    parse_byte(color_fields(line)[0]) is Some && parse_byte(color_fields(line)[1]) is Some && parse_byte(
        color_fields(line)[2],
    ) is Some
}

#[derive(Debug, Clone, Copy, PartialEq, Eq, Structural)]
pub enum ColorChannel {
    Red,
    Green,
    Blue,
}

/// A color component that is not a number from 0 to 255, at a 1-based line.
#[derive(Debug, Clone, Copy, PartialEq, Eq, Structural)]
pub struct CatalogError {
    pub line: usize,
    pub channel: ColorChannel,
}

/// How one catalog line reads. Only an entry becomes an element; the other
/// shapes are skipped.
#[derive(Debug)]
pub enum LineOutcome {
    Blank,
    /// Fewer than three parts.
    MissingParts,
    /// A color part without exactly three components.
    BadColorFormat,
    /// A symbol that is not one or two characters long.
    BadSymbol,
    Entry(Element),
}

fn to_chars(s: &str) -> (r: Vec<char>)
    ensures
        r@ == s@,
{
    let n = s.unicode_len();
    let mut v: Vec<char> = Vec::new();
    let mut i: usize = 0;
    while i < n
        invariant
            n == s@.len(),
            i <= n,
            v@ == s@.take(i as int),
        decreases n - i,
    {
        v.push(s.get_char(i));
        i = i + 1;
        assert(v@ =~= s@.take(i as int));
    }
    assert(s@.take(n as int) =~= s@);
    v
}

fn copy_range(s: &Vec<char>, from: usize, to: usize) -> (r: Vec<char>)
    requires
        from <= to <= s@.len(),
    ensures
        r@ == s@.subrange(from as int, to as int),
{
    let mut v: Vec<char> = Vec::new();
    let mut i: usize = from;
    while i < to
        invariant
            from <= i <= to <= s@.len(),
            v@ == s@.subrange(from as int, i as int),
        decreases to - i,
    {
        v.push(s[i]);
        i = i + 1;
        assert(v@ =~= s@.subrange(from as int, i as int));
    }
    v
}

proof fn lemma_trim_start(s: Seq<char>, a: int)
    requires
        0 <= a <= s.len(),
        forall|j: int| 0 <= j < a ==> is_space(s[j]),
        a < s.len() ==> !is_space(s[a]),
    ensures
        trim_start(s) == s.subrange(a, s.len() as int),
    decreases a,
{
    if a > 0 {
        let t = s.drop_first();
        assert forall|j: int| 0 <= j < a - 1 implies is_space(t[j]) by {
            assert(t[j] == s[j + 1]);
        }
        lemma_trim_start(t, a - 1);
        assert(t.subrange(a - 1, t.len() as int) =~= s.subrange(a, s.len() as int));
    } else {
        assert(s.subrange(0, s.len() as int) =~= s);
    }
}

proof fn lemma_trim_end(s: Seq<char>, b: int)
    requires
        0 <= b <= s.len(),
        forall|j: int| b <= j < s.len() ==> is_space(s[j]),
        b > 0 ==> !is_space(s[b - 1]),
    ensures
        trim_end(s) == s.subrange(0, b),
    decreases s.len() - b,
{
    if b < s.len() {
        let t = s.drop_last();
        assert forall|j: int| b <= j < t.len() implies is_space(t[j]) by {
            assert(t[j] == s[j]);
        }
        lemma_trim_end(t, b);
        assert(t.subrange(0, b) =~= s.subrange(0, b));
    } else {
        assert(s.subrange(0, b) =~= s);
    }
}

/// Start and end of `s` without its leading and trailing whitespace.
fn trim_bounds(s: &Vec<char>) -> (r: (usize, usize))
    ensures
        r.0 <= r.1 <= s@.len(),
        s@.subrange(r.0 as int, r.1 as int) == trimmed(s@),
{
    let n = s.len();
    let mut a: usize = 0;
    while a < n && is_whitespace(s[a])
        invariant
            a <= n == s@.len(),
            forall|j: int| 0 <= j < a ==> is_space(s@[j]),
        decreases n - a,
    {
        a = a + 1;
    }
    proof {
        lemma_trim_start(s@, a as int);
    }
    let ghost t = s@.subrange(a as int, n as int);
    let mut b: usize = n;
    while b > a && is_whitespace(s[b - 1])
        invariant
            a <= b <= n == s@.len(),
            forall|j: int| b <= j < n ==> is_space(s@[j]),
        decreases b,
    {
        b = b - 1;
    }
    proof {
        assert forall|j: int| b - a <= j < t.len() implies is_space(t[j]) by {
            assert(t[j] == s@[a + j]);
        }
        if b > a {
            assert(t[b - a - 1] == s@[b - 1]);
        }
        lemma_trim_end(t, b - a);
        assert(t.subrange(0, b - a) =~= s@.subrange(a as int, b as int));
    }
    (a, b)
}

fn occurs_at_exec(s: &Vec<char>, i: usize, sep: &Vec<char>) -> (r: bool)
    ensures
        r == occurs_at(s@, i as int, sep@),
{
    if sep.len() > s.len() || i > s.len() - sep.len() {
        return false;
    }
    let n = s.len();
    let mut k: usize = 0;
    while k < sep.len()
        invariant
            n == s@.len(),
            i + sep@.len() <= s@.len(),
            k <= sep@.len(),
            forall|j: int| 0 <= j < k ==> s@[i + j] == sep@[j],
        decreases sep@.len() - k,
    {
        assert(i + k < s@.len());
        if s[i + k] != sep[k] {
            assert(s@.subrange(i as int, i + sep@.len())[k as int] != sep@[k as int]);
            return false;
        }
        k = k + 1;
    }
    assert(s@.subrange(i as int, i + sep@.len()) =~= sep@);
    true
}

proof fn lemma_push_piece(pieces: Seq<Vec<char>>, t: Vec<char>, raw: Seq<Seq<char>>, x: Seq<char>)
    requires
        char_views(pieces) == trim_each(raw),
        t@ == trimmed(x),
    ensures
        char_views(pieces.push(t)) == trim_each(raw.push(x)),
{
    assert(char_views(pieces).len() == pieces.len());
    assert(trim_each(raw).len() == raw.len());
    assert forall|k: int| 0 <= k < pieces.len() + 1 implies #[trigger] char_views(pieces.push(t))[k] == trim_each(
        raw.push(x),
    )[k] by {
        if k < pieces.len() {
            assert(char_views(pieces)[k] == trim_each(raw)[k]);
        }
    }
    assert(char_views(pieces.push(t)) =~= trim_each(raw.push(x)));
}

/// The trimmed piece of `s` between `start` and `end`, and where it lies in `s`.
fn trimmed_piece(s: &Vec<char>, start: usize, end: usize) -> (r: (Vec<char>, (usize, usize)))
    requires
        start <= end <= s@.len(),
    ensures
        r.0@ == trimmed(s@.subrange(start as int, end as int)),
        start <= r.1.0 <= r.1.1 <= end,
        s@.subrange(r.1.0 as int, r.1.1 as int) == r.0@,
{
    let piece = copy_range(s, start, end);
    let (a, b) = trim_bounds(&piece);
    assert(piece@.subrange(a as int, b as int) =~= s@.subrange(start + a, start + b));
    let t = copy_range(s, start + a, start + b);
    (t, (start + a, start + b))
}

/// Splits at every occurrence of `sep` and trims each piece; also gives
/// where each trimmed piece lies in `s`.
fn split_trimmed(s: &Vec<char>, sep: &Vec<char>) -> (r: (Vec<Vec<char>>, Vec<(usize, usize)>))
    requires
        sep@.len() > 0,
    ensures
        char_views(r.0@) == trimmed_pieces(s@, sep@),
        r.1@.len() == r.0@.len(),
        forall|k: int|
            0 <= k < r.1@.len() ==> (#[trigger] r.1@[k]).0 <= r.1@[k].1 <= s@.len() && s@.subrange(
                r.1@[k].0 as int,
                r.1@[k].1 as int,
            ) == r.0@[k]@,
{
    let ghost full = split_on(s@, sep@);
    let mut pieces: Vec<Vec<char>> = Vec::new();
    let mut spans: Vec<(usize, usize)> = Vec::new();
    let ghost raw: Seq<Seq<char>> = Seq::empty();
    let mut start: usize = 0;
    let mut i: usize = 0;
    while i < s.len() && sep.len() <= s.len() - i
        invariant
            sep@.len() > 0,
            start <= i <= s@.len(),
            raw + split_scan(s@, sep@, start as int, i as int) == full,
            char_views(pieces@) == trim_each(raw),
            spans@.len() == pieces@.len(),
            forall|k: int|
                0 <= k < spans@.len() ==> (#[trigger] spans@[k]).0 <= spans@[k].1 <= s@.len() && s@.subrange(
                    spans@[k].0 as int,
                    spans@[k].1 as int,
                ) == pieces@[k]@,
        decreases s@.len() - i,
    {
        if occurs_at_exec(s, i, sep) {
            let (t, span) = trimmed_piece(s, start, i);
            proof {
                lemma_push_piece(pieces@, t, raw, s@.subrange(start as int, i as int));
                raw = raw.push(s@.subrange(start as int, i as int));
            }
            pieces.push(t);
            spans.push(span);
            start = i + sep.len();
            i = start;
        } else {
            i = i + 1;
        }
    }
    let (t, span) = trimmed_piece(s, start, s.len());
    proof {
        lemma_push_piece(pieces@, t, raw, s@.subrange(start as int, s@.len() as int));
        raw = raw.push(s@.subrange(start as int, s@.len() as int));
        assert(raw =~= full);
    }
    pieces.push(t);
    spans.push(span);
    (pieces, spans)
}

proof fn lemma_digits_nonneg(d: Seq<char>)
    requires
        forall|j: int| 0 <= j < d.len() ==> is_digit(#[trigger] d[j]),
    ensures
        digits_value(d) >= 0,
    decreases d.len(),
{
    if d.len() > 0 {
        let t = d.drop_last();
        assert forall|j: int| 0 <= j < t.len() implies is_digit(#[trigger] t[j]) by {
            assert(t[j] == d[j]);
        }
        lemma_digits_nonneg(t);
    }
}

proof fn lemma_digits_prefix(d: Seq<char>, i: int)
    requires
        0 <= i <= d.len(),
        forall|j: int| 0 <= j < d.len() ==> is_digit(#[trigger] d[j]),
    ensures
        digits_value(d.take(i)) <= digits_value(d),
    decreases d.len() - i,
{
    if i < d.len() {
        lemma_digits_prefix(d, i + 1);
        let t = d.take(i);
        assert(d.take(i + 1).drop_last() =~= t);
        assert forall|j: int| 0 <= j < t.len() implies is_digit(#[trigger] t[j]) by {
            assert(t[j] == d[j]);
        }
        lemma_digits_nonneg(t);
        assert(is_digit(d[i]));
        assert(d.take(i + 1).last() == d[i]);
    } else {
        assert(d.take(i) =~= d);
    }
}

/// Reads a color component as `str::parse::<u8>` does.
fn parse_byte_exec(s: &Vec<char>) -> (r: Option<u8>)
    ensures
        r == parse_byte(s@),
{
    let ghost d = unsigned_digits(s@);
    let first: usize = if s.len() > 0 && s[0] == '+' { 1 } else { 0 };
    assert(d =~= s@.subrange(first as int, s@.len() as int));
    if first >= s.len() {
        return None;
    }
    let mut value: u32 = 0;
    let mut i: usize = first;
    while i < s.len()
        invariant
            first <= i <= s@.len(),
            d == s@.subrange(first as int, s@.len() as int),
            d == unsigned_digits(s@),
            forall|j: int| 0 <= j < i - first ==> is_digit(#[trigger] d[j]),
            value == digits_value(d.take(i - first)),
            value <= 255,
        decreases s@.len() - i,
    {
        let c = s[i];
        assert(d[i - first] == s@[i as int]);
        if c < '0' || c > '9' {
            proof {
                assert(!is_digit(d[i - first]));
                assert(!all_digits(d));
                assert(parse_byte(s@) is None);
            }
            return None;
        }
        let ghost k = i - first;
        assert(d.take(k + 1).drop_last() =~= d.take(k));
        assert(d.take(k + 1).last() == c);
        let next = value * 10 + (c as u32 - '0' as u32);
        if next > 255 {
            proof {
                assert forall|j: int| 0 <= j < k + 1 implies is_digit(#[trigger] d.take(k + 1)[j]) by {
                    assert(d.take(k + 1)[j] == d[j]);
                }
                if all_digits(d) {
                    lemma_digits_prefix(d, k + 1);
                    assert(digits_value(d) > 255);
                }
                assert(parse_byte(s@) is None);
            }
            return None;
        }
        value = next;
        i = i + 1;
    }
    assert(d.take(d.len() as int) =~= d);
    Some(value as u8)
}

fn symbol_of(s: &Vec<char>) -> (r: Option<Id>)
    ensures
        r == symbol_id(s@),
{
    if s.len() == 1 {
        Some(Id::Single(s[0]))
    } else if s.len() == 2 {
        Some(Id::Double(s[0], s[1]))
    } else {
        None
    }
}

/// Reads one catalog line. Blank lines, lines with fewer than three parts,
/// color parts without three components and symbols that are not one or two
/// characters long are reported as such; a color component that is not a
/// number from 0 to 255 is an error naming the first such component. An
/// entry is a periodic element of atomic number 1.
pub fn parse_element_line(line: &str) -> (r: Result<LineOutcome, ColorChannel>)
    ensures
        trimmed(line@).len() == 0 ==> r matches Ok(LineOutcome::Blank),
        trimmed(line@).len() > 0 && line_fields(line@).len() < 3 ==> r matches Ok(LineOutcome::MissingParts),
        trimmed(line@).len() > 0 && line_fields(line@).len() >= 3 && color_fields(line@).len() != 3 ==> r matches Ok(
            LineOutcome::BadColorFormat,
        ),
        well_shaped(line@) && parse_byte(color_fields(line@)[0]) is None ==> r == Err::<LineOutcome, ColorChannel>(
            ColorChannel::Red,
        ),
        well_shaped(line@) && parse_byte(color_fields(line@)[0]) is Some && parse_byte(color_fields(line@)[1]) is None
            ==> r == Err::<LineOutcome, ColorChannel>(ColorChannel::Green),
        well_shaped(line@) && parse_byte(color_fields(line@)[0]) is Some && parse_byte(color_fields(line@)[1]) is Some
            && parse_byte(color_fields(line@)[2]) is None ==> r == Err::<LineOutcome, ColorChannel>(ColorChannel::Blue),
        well_shaped(line@) && colors_readable(line@) && symbol_id(line_fields(line@)[0]) is None ==> r matches Ok(
            LineOutcome::BadSymbol,
        ),
        well_shaped(line@) && colors_readable(line@) && symbol_id(line_fields(line@)[0]) is Some ==> (r matches Ok(
            LineOutcome::Entry(e),
        ) && e.id == symbol_id(line_fields(line@)[0])->Some_0 && e.element_type == ElementType::Periodic(1)
            && e.name@ == line_fields(line@)[1] && e.rgb == (
            parse_byte(color_fields(line@)[0])->Some_0,
            parse_byte(color_fields(line@)[1])->Some_0,
            parse_byte(color_fields(line@)[2])->Some_0,
        )),
{
    let chars = to_chars(line);
    let (a, b) = trim_bounds(&chars);
    if a == b {
        return Ok(LineOutcome::Blank);
    }
    let mut sep: Vec<char> = Vec::new();
    sep.push('\\');
    sep.push('-');
    assert(sep@ =~= part_separator());
    let (parts, spans) = split_trimmed(&chars, &sep);
    if parts.len() < 3 {
        return Ok(LineOutcome::MissingParts);
    }
    let mut comma: Vec<char> = Vec::new();
    comma.push(',');
    assert(comma@ =~= seq![',']);
    let ghost fields = char_views(parts@);
    assert(fields[2] == parts@[2]@);
    let (rgb, _) = split_trimmed(&parts[2], &comma);
    if rgb.len() != 3 {
        return Ok(LineOutcome::BadColorFormat);
    }
    let ghost cf = char_views(rgb@);
    assert(cf[0] == rgb@[0]@ && cf[1] == rgb@[1]@ && cf[2] == rgb@[2]@);
    let red = match parse_byte_exec(&rgb[0]) {
        Some(v) => v,
        None => return Err(ColorChannel::Red),
    };
    let green = match parse_byte_exec(&rgb[1]) {
        Some(v) => v,
        None => return Err(ColorChannel::Green),
    };
    let blue = match parse_byte_exec(&rgb[2]) {
        Some(v) => v,
        None => return Err(ColorChannel::Blue),
    };
    assert(fields[0] == parts@[0]@ && fields[1] == parts@[1]@);
    let id = match symbol_of(&parts[0]) {
        Some(id) => id,
        None => return Ok(LineOutcome::BadSymbol),
    };
    let (from, to) = spans[1];
    let name = line.substring_char(from, to).to_owned();
    Ok(
        LineOutcome::Entry(
            Element { id, element_type: ElementType::Periodic(1), name, rgb: (red, green, blue) },
        ),
    )
}

} // verus!
