//! The text form of a request.
//!
//! A request is written as lines, parted by line feeds. The fields of a
//! line are its runs of bytes other than blanks, where a blank is a space,
//! a tab, a carriage return, a vertical tab or a form feed; so fields are
//! parted by any number of blanks, and blanks before the first and after
//! the last field do not count. The lines are, in this order:
//!
//! * the algorithm's name, which is the whole of the first line;
//! * the grid's width and height;
//! * the landing point, as `x` and `y`;
//! * the largest change of elevation that the rover takes in one step;
//! * the number of targets;
//! * one line for each target, as `x` and `y`;
//! * one line for each row of the grid, with one elevation for each column.
//!
//! A number is written in decimal digits, which a `+` may precede, and fits
//! in 32 bits. Fields after those that a line needs, and lines after the last
//! row, are not read. Whether the landing point and the targets lie on the
//! grid is not looked at here: the planner does that.

use vstd::prelude::*;
use vstd::string::*;
use vstd::utf8::{
    encode_utf8,
    encode_utf8_valid_utf8,
    is_char_boundary,
    is_char_boundary_iff_not_is_continuation_byte,
    is_char_boundary_start_end_of_seq,
};
use crate::grid::RoverMap;
use crate::metadata::RoverMetadata;
use crate::point::Point;

verus! {

/// The line feed, which ends a line.
pub const LINE_FEED: u8 = 10;

/// The space, a blank.
pub const SPACE: u8 = 32;

/// The tab. The bytes from the tab to the carriage return are blanks: tab,
/// line feed, vertical tab, form feed and carriage return.
pub const TAB: u8 = 9;

/// The carriage return.
pub const CARRIAGE_RETURN: u8 = 13;

/// The sign that may precede a number.
pub const PLUS: u8 = 43;

/// The digit zero.
pub const DIGIT_ZERO: u8 = 48;

/// The digit nine.
pub const DIGIT_NINE: u8 = 57;

/// The text is not a request: `line` is the first line, counted from 0,
/// that is missing or cannot be read.
#[derive(Clone, Copy, Debug, PartialEq, Eq, Structural)]
pub struct ParseError {
    pub line: usize,
}

/// The place of the first `sep` in `s`, or the length of `s` where there is
/// none.
pub open spec fn position(s: Seq<u8>, sep: u8) -> int
    decreases s.len(),
{
    if s.len() == 0 || s[0] == sep {
        0
    } else {
        1 + position(s.drop_first(), sep)
    }
}

/// The parts of `s` between its occurrences of `sep`. There is one part
/// more than there are occurrences, and a part may be empty.
pub open spec fn pieces(s: Seq<u8>, sep: u8) -> Seq<Seq<u8>>
    decreases s.len(),
{
    let k = position(s, sep);
    if 0 <= k < s.len() {
        seq![s.subrange(0, k)] + pieces(s.subrange(k + 1, s.len() as int), sep)
    } else {
        seq![s]
    }
}

/// The byte parts fields.
pub open spec fn is_blank(b: u8) -> bool {
    b == SPACE || TAB <= b <= CARRIAGE_RETURN
}

/// How many bytes `s` starts with that are blanks, where `blank` holds, or
/// that are none, where it does not.
pub open spec fn leading(s: Seq<u8>, blank: bool) -> int
    decreases s.len(),
{
    if s.len() == 0 || is_blank(s[0]) != blank {
        0
    } else {
        1 + leading(s.drop_first(), blank)
    }
}

/// The fields of a line: its longest runs of bytes that are no blanks, in
/// their order.
pub open spec fn words(s: Seq<u8>) -> Seq<Seq<u8>>
    decreases s.len(),
{
    let a = leading(s, true);
    if 0 <= a <= s.len() {
        let b = leading(s.subrange(a, s.len() as int), false);
        if 0 < b && a + b <= s.len() {
            seq![s.subrange(a, a + b)] + words(s.subrange(a + b, s.len() as int))
        } else {
            Seq::empty()
        }
    } else {
        Seq::empty()
    }
}

/// Every byte is a decimal digit.
pub open spec fn all_digits(s: Seq<u8>) -> bool {
    forall|i: int| 0 <= i < s.len() ==> DIGIT_ZERO <= #[trigger] s[i] <= DIGIT_NINE
}

/// The number that a sequence of decimal digits stands for.
pub open spec fn digits_value(s: Seq<u8>) -> nat
    decreases s.len(),
{
    if s.len() == 0 {
        0
    } else {
        (digits_value(s.drop_last()) * 10 + (s.last() - DIGIT_ZERO)) as nat
    }
}

/// The number that a field stands for: one or more decimal digits, which a
/// `+` may precede, with a value that fits in 32 bits.
pub open spec fn number(field: Seq<u8>) -> Option<u32> {
    if field.len() > 0 && field[0] == PLUS {
        unsigned(field.drop_first())
    } else {
        unsigned(field)
    }
}

/// The number that one or more decimal digits stand for, where it fits in
/// 32 bits.
pub open spec fn unsigned(digits: Seq<u8>) -> Option<u32> {
    if digits.len() > 0 && all_digits(digits) && digits_value(digits) <= u32::MAX {
        Some(digits_value(digits) as u32)
    } else {
        None
    }
}

/// The number that a line starts with.
pub open spec fn single(line: Seq<u8>) -> Option<u32> {
    let fields = words(line);
    if fields.len() >= 1 {
        number(fields[0])
    } else {
        None
    }
}

/// The two numbers that a line starts with.
pub open spec fn pair(line: Seq<u8>) -> Option<(u32, u32)> {
    let fields = words(line);
    if fields.len() >= 2 && number(fields[0]) is Some && number(fields[1]) is Some {
        Some((number(fields[0])->0, number(fields[1])->0))
    } else {
        None
    }
}

/// The `width` numbers that a line starts with.
pub open spec fn row(line: Seq<u8>, width: u32) -> Option<Seq<u32>> {
    let fields = words(line);
    if fields.len() >= width && forall|j: int|
        0 <= j < width ==> (#[trigger] number(fields[j])) is Some {
        Some(Seq::new(width as nat, |j: int| number(fields[j])->0))
    } else {
        None
    }
}

/// The number that line `i` starts with, if there is such a line.
pub open spec fn line_number(lines: Seq<Seq<u8>>, i: int) -> Option<u32> {
    if 0 <= i < lines.len() {
        single(lines[i])
    } else {
        None
    }
}

/// The two numbers that line `i` starts with, if there is such a line.
pub open spec fn line_pair(lines: Seq<Seq<u8>>, i: int) -> Option<(u32, u32)> {
    if 0 <= i < lines.len() {
        pair(lines[i])
    } else {
        None
    }
}

/// The `width` numbers that line `i` starts with, if there is such a line.
pub open spec fn line_row(lines: Seq<Seq<u8>>, i: int, width: u32) -> Option<Seq<u32>> {
    if 0 <= i < lines.len() {
        row(lines[i], width)
    } else {
        None
    }
}

/// The first of the lines `from`, `from + 1`, ... `from + count - 1` that
/// does not start with two numbers.
pub open spec fn first_bad_pair(lines: Seq<Seq<u8>>, from: int, count: nat) -> Option<int>
    decreases count,
{
    if count == 0 {
        None
    } else {
        match first_bad_pair(lines, from, (count - 1) as nat) {
            Some(i) => Some(i),
            None => if line_pair(lines, from + count - 1) is Some {
                None
            } else {
                Some(from + count - 1)
            },
        }
    }
}

/// The first of the lines `from`, `from + 1`, ... `from + count - 1` that
/// does not start with `width` numbers.
pub open spec fn first_bad_row(lines: Seq<Seq<u8>>, from: int, count: nat, width: u32) -> Option<
    int,
>
    decreases count,
{
    if count == 0 {
        None
    } else {
        match first_bad_row(lines, from, (count - 1) as nat, width) {
            Some(i) => Some(i),
            None => if line_row(lines, from + count - 1, width) is Some {
                None
            } else {
                Some(from + count - 1)
            },
        }
    }
}

/// What a text says, read as a request.
pub struct MapData {
    pub algorithm: Seq<u8>,
    pub width: u32,
    pub height: u32,
    pub landing: Point,
    pub max_delta: u32,
    pub targets: Seq<Point>,
    pub elevations: Seq<Seq<u32>>,
}

/// The point that a pair of numbers names.
pub open spec fn point_of(pair: (u32, u32)) -> Point {
    Point { x: pair.0, y: pair.1 }
}

/// What a text says, or the first line at which it fails to be a request.
pub open spec fn parse(text: Seq<u8>) -> Result<MapData, ParseError> {
    let lines = pieces(text, LINE_FEED);
    if line_pair(lines, 1) is None {
        Err(ParseError { line: 1 })
    } else if line_pair(lines, 2) is None {
        Err(ParseError { line: 2 })
    } else if line_number(lines, 3) is None {
        Err(ParseError { line: 3 })
    } else if line_number(lines, 4) is None {
        Err(ParseError { line: 4 })
    } else {
        let size = line_pair(lines, 1)->0;
        let count = line_number(lines, 4)->0;
        match first_bad_pair(lines, 5, count as nat) {
            Some(i) => Err(ParseError { line: i as usize }),
            None => match first_bad_row(lines, 5 + count, size.1 as nat, size.0) {
                Some(i) => Err(ParseError { line: i as usize }),
                None => Ok(
                    MapData {
                        algorithm: lines[0],
                        width: size.0,
                        height: size.1,
                        landing: point_of(line_pair(lines, 2)->0),
                        max_delta: line_number(lines, 3)->0,
                        targets: Seq::new(
                            count as nat,
                            |k: int| point_of(line_pair(lines, 5 + k)->0),
                        ),
                        elevations: Seq::new(
                            size.1 as nat,
                            |k: int| line_row(lines, 5 + count + k, size.0)->0,
                        ),
                    },
                ),
            },
        }
    }
}

/// The metadata and the map hold what the text says.
pub open spec fn holds(data: MapData, meta: &RoverMetadata, map: &RoverMap) -> bool {
    &&& encode_utf8(meta.algorithm@) == data.algorithm
    &&& meta.elevation_delta == data.max_delta
    &&& map.width == data.width
    &&& map.height == data.height
    &&& map.landing_coords == data.landing
    &&& map.target_sites@ == data.targets
    &&& map.elevations@.len() == data.elevations.len()
    &&& forall|r: int|
        0 <= r < map.elevations@.len() ==> (#[trigger] map.elevations@[r])@ == data.elevations[r]
}

/// A part of the text: the bytes from `start` up to `end`.
#[derive(Clone, Copy)]
struct Span {
    start: usize,
    end: usize,
}

spec fn covered(bytes: Seq<u8>, span: Span) -> Seq<u8> {
    bytes.subrange(span.start as int, span.end as int)
}

spec fn covered_all(bytes: Seq<u8>, spans: Seq<Span>) -> Seq<Seq<u8>> {
    Seq::new(spans.len(), |k: int| covered(bytes, spans[k]))
}

spec fn spans_of(bytes: Seq<u8>, spans: Seq<Span>, parts: Seq<Seq<u8>>) -> bool {
    &&& spans.len() == parts.len()
    &&& forall|k: int|
        0 <= k < spans.len() ==> (#[trigger] spans[k]).start <= spans[k].end <= bytes.len()
            && covered(bytes, spans[k]) == parts[k]
}

proof fn lemma_position(s: Seq<u8>, sep: u8, k: int)
    requires
        0 <= k <= s.len(),
        forall|j: int| 0 <= j < k ==> s[j] != sep,
        k < s.len() ==> s[k] == sep,
    ensures
        position(s, sep) == k,
    decreases k,
{
    if k > 0 {
        lemma_position(s.drop_first(), sep, k - 1);
    }
}

proof fn lemma_pieces_cut(s: Seq<u8>, sep: u8, k: int)
    requires
        0 <= k < s.len(),
        forall|j: int| 0 <= j < k ==> s[j] != sep,
        s[k] == sep,
    ensures
        pieces(s, sep) == seq![s.subrange(0, k)] + pieces(s.subrange(k + 1, s.len() as int), sep),
{
    lemma_position(s, sep, k);
}

proof fn lemma_pieces_whole(s: Seq<u8>, sep: u8)
    requires
        forall|j: int| 0 <= j < s.len() ==> s[j] != sep,
    ensures
        pieces(s, sep) == seq![s],
{
    lemma_position(s, sep, s.len() as int);
}

proof fn lemma_leading(s: Seq<u8>, blank: bool, k: int)
    requires
        0 <= k <= s.len(),
        forall|j: int| 0 <= j < k ==> is_blank(s[j]) == blank,
        k < s.len() ==> is_blank(s[k]) != blank,
    ensures
        leading(s, blank) == k,
    decreases k,
{
    if k > 0 {
        lemma_leading(s.drop_first(), blank, k - 1);
    }
}

proof fn lemma_words_cut(s: Seq<u8>, a: int, b: int)
    requires
        0 <= a,
        0 < b,
        a + b <= s.len(),
        forall|j: int| 0 <= j < a ==> is_blank(s[j]),
        forall|j: int| a <= j < a + b ==> !is_blank(s[j]),
        a + b < s.len() ==> is_blank(s[a + b]),
    ensures
        words(s) == seq![s.subrange(a, a + b)] + words(s.subrange(a + b, s.len() as int)),
{
    lemma_leading(s, true, a);
    lemma_leading(s.subrange(a, s.len() as int), false, b);
}

proof fn lemma_words_none(s: Seq<u8>)
    requires
        forall|j: int| 0 <= j < s.len() ==> is_blank(s[j]),
    ensures
        words(s) == Seq::<Seq<u8>>::empty(),
{
    lemma_leading(s, true, s.len() as int);
    lemma_leading(s.subrange(s.len() as int, s.len() as int), false, 0);
}

/// The digits read so far stand for no more than all the digits do.
proof fn lemma_digits_grow(s: Seq<u8>, n: int)
    requires
        all_digits(s),
        0 <= n <= s.len(),
    ensures
        digits_value(s.subrange(0, n)) <= digits_value(s),
    decreases s.len() - n,
{
    if n == s.len() {
        assert(s.subrange(0, n) =~= s);
    } else {
        lemma_digits_grow(s.drop_last(), n);
        assert(s.drop_last().subrange(0, n) =~= s.subrange(0, n));
    }
}

/// The parts of the bytes from `from` up to `to` between the occurrences
/// of `sep`.
fn split(bytes: &[u8], from: usize, to: usize, sep: u8) -> (spans: Vec<Span>)
    requires
        from <= to <= bytes@.len(),
    ensures
        spans_of(bytes@, spans@, pieces(bytes@.subrange(from as int, to as int), sep)),
{
    let mut spans: Vec<Span> = Vec::new();
    let mut start: usize = from;
    let mut i: usize = from;
    let ghost whole = bytes@.subrange(from as int, to as int);
    while i < to
        invariant
            from <= start <= i <= to <= bytes@.len(),
            whole == bytes@.subrange(from as int, to as int),
            forall|j: int| start <= j < i ==> bytes@[j] != sep,
            forall|k: int|
                0 <= k < spans@.len() ==> (#[trigger] spans@[k]).start <= spans@[k].end
                    <= bytes@.len(),
            pieces(whole, sep) == covered_all(bytes@, spans@) + pieces(
                bytes@.subrange(start as int, to as int),
                sep,
            ),
        decreases to - i,
    {
        if bytes[i] == sep {
            let ghost rest = bytes@.subrange(start as int, to as int);
            proof {
                lemma_pieces_cut(rest, sep, i - start);
                assert(rest.subrange(0, i - start) =~= bytes@.subrange(start as int, i as int));
                assert(rest.subrange(i - start + 1, rest.len() as int) =~= bytes@.subrange(
                    i + 1,
                    to as int,
                ));
            }
            let ghost before = spans@;
            spans.push(Span { start, end: i });
            proof {
                assert(covered_all(bytes@, spans@) =~= covered_all(bytes@, before) + seq![
                    bytes@.subrange(start as int, i as int),
                ]);
                assert(covered_all(bytes@, before) + (seq![bytes@.subrange(start as int, i as int)]
                    + pieces(bytes@.subrange(i + 1, to as int), sep)) =~= covered_all(
                    bytes@,
                    spans@,
                ) + pieces(bytes@.subrange(i + 1, to as int), sep));
            }
            start = i + 1;
        }
        i += 1;
    }
    let ghost before = spans@;
    proof {
        lemma_pieces_whole(bytes@.subrange(start as int, to as int), sep);
    }
    spans.push(Span { start, end: to });
    proof {
        assert(covered_all(bytes@, spans@) =~= covered_all(bytes@, before) + seq![
            bytes@.subrange(start as int, to as int),
        ]);
        assert forall|k: int| 0 <= k < spans@.len() implies covered(bytes@, #[trigger] spans@[k])
            == pieces(whole, sep)[k] by {
            assert(covered_all(bytes@, spans@)[k] == covered(bytes@, spans@[k]));
        }
    }
    spans
}

/// Whether the byte parts fields.
fn blank(b: u8) -> (r: bool)
    ensures
        r == is_blank(b),
{
    b == SPACE || (TAB <= b && b <= CARRIAGE_RETURN)
}

/// The fields of the bytes from `from` up to `to`.
fn find_words(bytes: &[u8], from: usize, to: usize) -> (spans: Vec<Span>)
    requires
        from <= to <= bytes@.len(),
    ensures
        spans_of(bytes@, spans@, words(bytes@.subrange(from as int, to as int))),
{
    let mut spans: Vec<Span> = Vec::new();
    let mut i: usize = from;
    let ghost whole = bytes@.subrange(from as int, to as int);
    loop
        invariant_except_break
            words(whole) == covered_all(bytes@, spans@) + words(
                bytes@.subrange(i as int, to as int),
            ),
        invariant
            from <= i <= to <= bytes@.len(),
            whole == bytes@.subrange(from as int, to as int),
            forall|k: int|
                0 <= k < spans@.len() ==> (#[trigger] spans@[k]).start <= spans@[k].end
                    <= bytes@.len(),
        ensures
            words(whole) == covered_all(bytes@, spans@),
        decreases to - i,
    {
        let ghost rest = bytes@.subrange(i as int, to as int);
        let mut a: usize = i;
        while a < to && blank(bytes[a])
            invariant
                i <= a <= to <= bytes@.len(),
                forall|j: int| i <= j < a ==> is_blank(bytes@[j]),
            decreases to - a,
        {
            a += 1;
        }
        if a == to {
            proof {
                lemma_words_none(rest);
                assert(covered_all(bytes@, spans@) + Seq::<Seq<u8>>::empty() =~= covered_all(
                    bytes@,
                    spans@,
                ));
            }
            break ;
        }
        let mut b: usize = a + 1;
        while b < to && !blank(bytes[b])
            invariant
                a < b <= to <= bytes@.len(),
                forall|j: int| a <= j < b ==> !is_blank(bytes@[j]),
            decreases to - b,
        {
            b += 1;
        }
        let ghost before = spans@;
        proof {
            lemma_words_cut(rest, a - i, b - a);
            assert(rest.subrange(a - i, b - i) =~= bytes@.subrange(a as int, b as int));
            assert(rest.subrange(b - i, rest.len() as int) =~= bytes@.subrange(
                b as int,
                to as int,
            ));
        }
        spans.push(Span { start: a, end: b });
        proof {
            assert(covered_all(bytes@, spans@) =~= covered_all(bytes@, before) + seq![
                bytes@.subrange(a as int, b as int),
            ]);
            assert(covered_all(bytes@, before) + (seq![bytes@.subrange(a as int, b as int)]
                + words(bytes@.subrange(b as int, to as int))) =~= covered_all(bytes@, spans@)
                + words(bytes@.subrange(b as int, to as int)));
        }
        i = b;
    }
    proof {
        assert forall|k: int| 0 <= k < spans@.len() implies covered(bytes@, #[trigger] spans@[k])
            == words(whole)[k] by {
            assert(covered_all(bytes@, spans@)[k] == covered(bytes@, spans@[k]));
        }
    }
    spans
}

/// The number that a part of the text stands for.
fn read_number(bytes: &[u8], span: Span) -> (r: Option<u32>)
    requires
        span.start <= span.end <= bytes@.len(),
    ensures
        r == number(covered(bytes@, span)),
{
    let ghost field = covered(bytes@, span);
    let mut i: usize = span.start;
    if i < span.end && bytes[i] == PLUS {
        i += 1;
    }
    let first: usize = i;
    let ghost digits = bytes@.subrange(first as int, span.end as int);
    proof {
        if first > span.start {
            assert(field[0] == PLUS);
            assert(field.drop_first() =~= digits);
        } else {
            assert(field =~= digits);
            if field.len() > 0 {
                assert(field[0] == bytes@[span.start as int]);
            }
        }
    }
    if first == span.end {
        return None;
    }
    let mut value: u64 = 0;
    while i < span.end
        invariant
            first <= i <= span.end <= bytes@.len(),
            first < span.end,
            digits == bytes@.subrange(first as int, span.end as int),
            number(covered(bytes@, span)) == unsigned(digits),
            all_digits(digits.subrange(0, i - first)),
            value == digits_value(digits.subrange(0, i - first)),
            value <= u32::MAX,
        decreases span.end - i,
    {
        let byte = bytes[i];
        if byte < DIGIT_ZERO || byte > DIGIT_NINE {
            assert(digits[i - first] == byte);
            return None;
        }
        let ghost read = digits.subrange(0, i - first + 1);
        proof {
            assert(read.drop_last() =~= digits.subrange(0, i - first));
            assert(read.last() == byte);
            assert forall|j: int| 0 <= j < read.len() implies DIGIT_ZERO <= #[trigger] read[j]
                <= DIGIT_NINE by {
                if j < i - first {
                    assert(digits.subrange(0, i - first)[j] == read[j]);
                }
            }
        }
        let next: u64 = value * 10 + (byte - DIGIT_ZERO) as u64;
        if next > u32::MAX as u64 {
            proof {
                if all_digits(digits) {
                    lemma_digits_grow(digits, i - first + 1);
                }
            }
            return None;
        }
        value = next;
        i += 1;
    }
    assert(digits.subrange(0, i - first) =~= digits);
    Some(value as u32)
}

/// The number that a part of the text starts with.
fn read_single(bytes: &[u8], span: Span) -> (r: Option<u32>)
    requires
        span.start <= span.end <= bytes@.len(),
    ensures
        r == single(covered(bytes@, span)),
{
    let fields = find_words(bytes, span.start, span.end);
    if fields.len() < 1 {
        return None;
    }
    read_number(bytes, fields[0])
}

/// The two numbers that a part of the text starts with.
fn read_pair(bytes: &[u8], span: Span) -> (r: Option<(u32, u32)>)
    requires
        span.start <= span.end <= bytes@.len(),
    ensures
        r == pair(covered(bytes@, span)),
{
    let fields = find_words(bytes, span.start, span.end);
    if fields.len() < 2 {
        return None;
    }
    match read_number(bytes, fields[0]) {
        None => None,
        Some(a) => match read_number(bytes, fields[1]) {
            None => None,
            Some(b) => Some((a, b)),
        },
    }
}

/// The `width` numbers that a part of the text starts with.
fn read_row(bytes: &[u8], span: Span, width: u32) -> (r: Option<Vec<u32>>)
    requires
        span.start <= span.end <= bytes@.len(),
    ensures
        r is Some <==> row(covered(bytes@, span), width) is Some,
        r is Some ==> r->0@ == row(covered(bytes@, span), width)->0,
{
    let fields = find_words(bytes, span.start, span.end);
    let ghost parts = words(covered(bytes@, span));
    if fields.len() < width as usize {
        return None;
    }
    let mut numbers: Vec<u32> = Vec::new();
    let mut j: usize = 0;
    while j < width as usize
        invariant
            j <= width <= fields@.len(),
            parts == words(covered(bytes@, span)),
            spans_of(bytes@, fields@, parts),
            numbers@.len() == j,
            forall|k: int| 0 <= k < j ==> (#[trigger] number(parts[k])) == Some(numbers@[k]),
        decreases width - j,
    {
        match read_number(bytes, fields[j]) {
            None => {
                assert(number(parts[j as int]) is None);
                return None;
            },
            Some(n) => {
                numbers.push(n);
            },
        }
        j += 1;
    }
    assert(numbers@ =~= row(covered(bytes@, span), width)->0);
    Some(numbers)
}

proof fn lemma_first_bad_pair(lines: Seq<Seq<u8>>, from: int, count: nat, i: int)
    requires
        0 <= i < count,
        first_bad_pair(lines, from, i as nat) is None,
        line_pair(lines, from + i) is None,
    ensures
        first_bad_pair(lines, from, count) == Some(from + i),
    decreases count,
{
    if count > i + 1 {
        lemma_first_bad_pair(lines, from, (count - 1) as nat, i);
    }
}

proof fn lemma_first_bad_row(lines: Seq<Seq<u8>>, from: int, count: nat, width: u32, i: int)
    requires
        0 <= i < count,
        first_bad_row(lines, from, i as nat, width) is None,
        line_row(lines, from + i, width) is None,
    ensures
        first_bad_row(lines, from, count, width) == Some(from + i),
    decreases count,
{
    if count > i + 1 {
        lemma_first_bad_row(lines, from, (count - 1) as nat, width, i);
    }
}

/// The place of the first line feed in the text, or the text's length
/// where there is none: a place at which the text can be cut.
fn first_line_end(text: &str) -> (k: usize)
    ensures
        k <= text.spec_bytes().len(),
        is_char_boundary(text.spec_bytes(), k as int),
        text.spec_bytes().subrange(0, k as int) == pieces(text.spec_bytes(), LINE_FEED)[0],
{
    let bytes = text.as_bytes();
    proof {
        encode_utf8_valid_utf8(text@);
    }
    let mut k: usize = 0;
    while k < bytes.len() && bytes[k] != LINE_FEED
        invariant
            k <= bytes@.len(),
            bytes@ == text.spec_bytes(),
            forall|j: int| 0 <= j < k ==> bytes@[j] != LINE_FEED,
        decreases bytes@.len() - k,
    {
        k += 1;
    }
    proof {
        if k < bytes@.len() {
            lemma_pieces_cut(bytes@, LINE_FEED, k as int);
            is_char_boundary_iff_not_is_continuation_byte(bytes@, k as int);
        } else {
            lemma_pieces_whole(bytes@, LINE_FEED);
            is_char_boundary_start_end_of_seq(bytes@);
            assert(bytes@.subrange(0, k as int) =~= bytes@);
        }
    }
    k
}

/// Reads a request from its text form.
///
/// Where the text is a request, the metadata and the map hold what it
/// says, and the map's elevations have the shape that its width and height
/// announce. Where it is not, the error names the first line that is
/// missing or cannot be read.
pub fn parse_map_data(text: &str) -> (r: Result<(RoverMetadata, RoverMap), ParseError>)
    ensures
        match parse(text.spec_bytes()) {
            Ok(data) => r is Ok && holds(data, &r->Ok_0.0, &r->Ok_0.1),
            Err(e) => r is Err && r->Err_0 == e,
        },
        r is Ok ==> r->Ok_0.1.wf(),
{
    let bytes = text.as_bytes();
    let lines = split(bytes, 0, bytes.len(), LINE_FEED);
    let ghost parts = pieces(text.spec_bytes(), LINE_FEED);
    assert(bytes@.subrange(0, bytes@.len() as int) =~= bytes@);
    let cut = first_line_end(text);
    let (name, _) = text.split_at(cut);
    let algorithm = name.to_owned();

    if lines.len() < 2 {
        return Err(ParseError { line: 1 });
    }
    let (width, height) = match read_pair(bytes, lines[1]) {
        Some(size) => size,
        None => {
            return Err(ParseError { line: 1 });
        },
    };
    if lines.len() < 3 {
        return Err(ParseError { line: 2 });
    }
    let landing = match read_pair(bytes, lines[2]) {
        Some(at) => Point::new_point(at.0, at.1),
        None => {
            return Err(ParseError { line: 2 });
        },
    };
    if lines.len() < 4 {
        return Err(ParseError { line: 3 });
    }
    let max_delta = match read_single(bytes, lines[3]) {
        Some(n) => n,
        None => {
            return Err(ParseError { line: 3 });
        },
    };
    if lines.len() < 5 {
        return Err(ParseError { line: 4 });
    }
    let count = match read_single(bytes, lines[4]) {
        Some(n) => n,
        None => {
            return Err(ParseError { line: 4 });
        },
    };

    let mut targets: Vec<Point> = Vec::new();
    let mut at: usize = 5;
    let mut i: u32 = 0;
    while i < count
        invariant
            i <= count,
            5 <= at <= lines@.len(),
            at == 5 + i,
            parts == pieces(text.spec_bytes(), LINE_FEED),
            line_pair(parts, 1) == Some((width, height)),
            line_pair(parts, 2) is Some,
            line_number(parts, 3) is Some,
            line_number(parts, 4) == Some(count),
            spans_of(bytes@, lines@, parts),
            first_bad_pair(parts, 5, i as nat) is None,
            targets@.len() == i,
            forall|k: int|
                0 <= k < i ==> #[trigger] targets@[k] == point_of(line_pair(parts, 5 + k)->0),
        decreases count - i,
    {
        if at >= lines.len() {
            proof {
                lemma_first_bad_pair(parts, 5, count as nat, i as int);
            }
            return Err(ParseError { line: at });
        }
        match read_pair(bytes, lines[at]) {
            None => {
                proof {
                    lemma_first_bad_pair(parts, 5, count as nat, i as int);
                }
                return Err(ParseError { line: at });
            },
            Some(site) => {
                targets.push(Point::new_point(site.0, site.1));
            },
        }
        at += 1;
        i += 1;
    }

    let mut elevations: Vec<Vec<u32>> = Vec::new();
    let ghost rows_from = at as int;
    let mut r: u32 = 0;
    while r < height
        invariant
            r <= height,
            5 <= at <= lines@.len(),
            rows_from == 5 + count,
            at == rows_from + r,
            parts == pieces(text.spec_bytes(), LINE_FEED),
            line_pair(parts, 1) == Some((width, height)),
            line_pair(parts, 2) is Some,
            line_number(parts, 3) is Some,
            line_number(parts, 4) == Some(count),
            first_bad_pair(parts, 5, count as nat) is None,
            spans_of(bytes@, lines@, parts),
            first_bad_row(parts, rows_from, r as nat, width) is None,
            elevations@.len() == r,
            forall|k: int|
                0 <= k < r ==> (#[trigger] elevations@[k])@ == line_row(
                    parts,
                    rows_from + k,
                    width,
                )->0,
            forall|k: int| 0 <= k < r ==> (#[trigger] elevations@[k])@.len() == width,
        decreases height - r,
    {
        if at >= lines.len() {
            proof {
                lemma_first_bad_row(parts, rows_from, height as nat, width, r as int);
            }
            return Err(ParseError { line: at });
        }
        match read_row(bytes, lines[at], width) {
            None => {
                proof {
                    lemma_first_bad_row(parts, rows_from, height as nat, width, r as int);
                }
                return Err(ParseError { line: at });
            },
            Some(numbers) => {
                elevations.push(numbers);
            },
        }
        at += 1;
        r += 1;
    }

    let map = RoverMap::generate(width, height, landing, targets, elevations);
    let meta = RoverMetadata::generate(algorithm, max_delta);
    proof {
        let data = parse(text.spec_bytes())->Ok_0;
        assert(map.target_sites@ =~= data.targets);
    }
    Ok((meta, map))
}

} // verus!
