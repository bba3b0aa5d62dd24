//! Byte spans, and the conversion between byte offsets and editor positions.
use vstd::prelude::*;
use vstd::utf8::*;
use crate::protocol::{Position, Range};
use crate::text::{lemma_boundary_in_range, on_boundary};

verus! {

/// A half-open byte range `[start, end)` into the source text.
#[derive(Debug, Clone, Copy, PartialEq, Eq, Structural)]
pub struct Span {
    pub start: usize,
    pub end: usize,
}

impl Span {
    pub fn new(start: usize, end: usize) -> (r: Self)
        ensures
            r == (Span { start, end }),
    {
        Self { start, end }
    }

    pub open spec fn has(self, offset: int) -> bool {
        self.start <= offset < self.end
    }

    pub fn contains(&self, offset: usize) -> (r: bool)
        ensures
            r == self.has(offset as int),
    {
        self.start <= offset && offset < self.end
    }
}

/// How many newlines stand before `at`.
pub open spec fn newlines_before(bytes: Seq<u8>, at: int) -> nat
    decreases at,
{
    if at <= 0 {
        0
    } else {
        newlines_before(bytes, at - 1) + if bytes[at - 1] == 10 { 1nat } else { 0nat }
    }
}

/// The offset at which the line holding `at` starts.
pub open spec fn line_start(bytes: Seq<u8>, at: int) -> int
    decreases at,
{
    if at <= 0 || bytes[at - 1] == 10 {
        at
    } else {
        line_start(bytes, at - 1)
    }
}

/// The offsets at which the lines of the first `n` bytes start, in order.
pub open spec fn line_starts_of(bytes: Seq<u8>, n: int) -> Seq<usize>
    decreases n,
{
    if n <= 0 {
        seq![0usize]
    } else if bytes[n - 1] == 10 {
        line_starts_of(bytes, n - 1).push(n as usize)
    } else {
        line_starts_of(bytes, n - 1)
    }
}

/// How many UTF-16 code units a character of UTF-8 leading byte `byte` takes; a continuation byte
/// adds none.
pub open spec fn utf16_units(byte: u8) -> nat {
    if is_continuation_byte(byte) {
        0
    } else if byte >= 0xf0 {
        2
    } else {
        1
    }
}

/// The UTF-16 length of the bytes `[from, to)`.
pub open spec fn utf16_between(bytes: Seq<u8>, from: int, to: int) -> nat
    decreases to - from,
{
    if from >= to {
        0
    } else {
        utf16_between(bytes, from, to - 1) + utf16_units(bytes[to - 1])
    }
}

/// The UTF-16 length of a text: one unit for a character of the basic plane, two for any other.
pub open spec fn utf16_len(text: Seq<char>) -> nat
    decreases text.len(),
{
    if text.len() == 0 {
        0
    } else {
        utf16_len(text.drop_first()) + if text[0] as u32 <= 0xffff { 1nat } else { 2nat }
    }
}

/// The first character at or after `from` that `want` UTF-16 units lie before, or `to` where none
/// does.
pub open spec fn reach(bytes: Seq<u8>, from: int, to: int, want: int) -> int
    decreases to - from,
{
    if from >= to {
        to
    } else if want <= 0 && !is_continuation_byte(bytes[from]) {
        from
    } else {
        reach(bytes, from + 1, to, want - utf16_units(bytes[from]))
    }
}

/// The position of the byte offset `at`.
pub open spec fn position_of(bytes: Seq<u8>, at: int) -> Position {
    Position {
        line: newlines_before(bytes, at) as u32,
        character: utf16_between(bytes, line_start(bytes, at), at) as u32,
    }
}

/// Whether the line and the character of an offset fit the fields of a position.
pub open spec fn has_position(bytes: Seq<u8>, at: int) -> bool {
    newlines_before(bytes, at) <= u32::MAX && utf16_between(bytes, line_start(bytes, at), at)
        <= u32::MAX
}

/// The offset `at`, or the end of the text where it lies past it.
pub open spec fn within(bytes: Seq<u8>, at: int) -> int {
    if at <= bytes.len() {
        at
    } else {
        bytes.len() as int
    }
}

/// Where line `line` ends: at the start of the next one, or at the end of the text.
pub open spec fn line_end(bytes: Seq<u8>, line: int) -> int {
    let starts = line_starts_of(bytes, bytes.len() as int);
    if line + 1 < starts.len() {
        starts[line + 1] as int
    } else {
        bytes.len() as int
    }
}

/// The byte offset of a position, clamped to the end of its line; `None` past the last line.
pub open spec fn offset_of(bytes: Seq<u8>, position: Position) -> Option<int> {
    let starts = line_starts_of(bytes, bytes.len() as int);
    if position.line < starts.len() {
        Some(
            reach(
                bytes,
                starts[position.line as int] as int,
                line_end(bytes, position.line as int),
                position.character as int,
            ),
        )
    } else {
        None
    }
}

/// The range of a span.
pub open spec fn range_between(bytes: Seq<u8>, span: Span) -> Range {
    Range {
        start: position_of(bytes, within(bytes, span.start as int)),
        end: position_of(bytes, within(bytes, span.end as int)),
    }
}

proof fn lemma_starts(bytes: Seq<u8>, n: int)
    requires
        0 <= n <= bytes.len(),
        bytes.len() <= usize::MAX,
    ensures
        line_starts_of(bytes, n).len() == 1 + newlines_before(bytes, n),
        line_starts_of(bytes, n)[0] == 0,
        line_starts_of(bytes, n).last() == line_start(bytes, n),
        0 <= line_start(bytes, n) <= n,
        forall|i: int| 0 <= i < line_starts_of(bytes, n).len() ==> line_starts_of(bytes, n)[i] <= n,
        forall|i: int, j: int|
            0 <= i < j < line_starts_of(bytes, n).len() ==> line_starts_of(bytes, n)[i]
                < line_starts_of(bytes, n)[j],
    decreases n,
{
    if n > 0 {
        lemma_starts(bytes, n - 1);
    }
}

proof fn lemma_starts_prefix(bytes: Seq<u8>, at: int, n: int)
    requires
        0 <= at <= n <= bytes.len(),
        bytes.len() <= usize::MAX,
    ensures
        line_starts_of(bytes, at).len() <= line_starts_of(bytes, n).len(),
        forall|i: int|
            0 <= i < line_starts_of(bytes, at).len() ==> line_starts_of(bytes, n)[i]
                == line_starts_of(bytes, at)[i],
        forall|i: int|
            line_starts_of(bytes, at).len() <= i < line_starts_of(bytes, n).len() ==> at
                < line_starts_of(bytes, n)[i],
    decreases n - at,
{
    if at < n {
        lemma_starts_prefix(bytes, at, n - 1);
    }
}

proof fn lemma_utf16_split(bytes: Seq<u8>, from: int, mid: int, to: int)
    requires
        from <= mid <= to,
    ensures
        utf16_between(bytes, from, to) == utf16_between(bytes, from, mid) + utf16_between(
            bytes,
            mid,
            to,
        ),
    decreases to - mid,
{
    if mid < to {
        lemma_utf16_split(bytes, from, mid, to - 1);
    }
}

proof fn lemma_newlines_monotonic(bytes: Seq<u8>, a: int, b: int)
    requires
        0 <= a <= b,
    ensures
        newlines_before(bytes, a) <= newlines_before(bytes, b),
        newlines_before(bytes, b) <= b,
    decreases b,
{
    if a < b {
        lemma_newlines_monotonic(bytes, a, b - 1);
    } else if b > 0 {
        lemma_newlines_monotonic(bytes, a - 1, b - 1);
    }
}

proof fn lemma_same_line(bytes: Seq<u8>, a: int, b: int)
    requires
        0 <= a <= b <= bytes.len(),
        newlines_before(bytes, a) == newlines_before(bytes, b),
    ensures
        line_start(bytes, a) == line_start(bytes, b),
    decreases b,
{
    if a < b {
        lemma_newlines_monotonic(bytes, a, b - 1);
        lemma_same_line(bytes, a, b - 1);
    }
}

proof fn lemma_reach(bytes: Seq<u8>, from: int, to: int, want: int)
    requires
        valid_utf8(bytes),
        0 <= from <= to <= bytes.len(),
        is_char_boundary(bytes, to),
    ensures
        from <= reach(bytes, from, to, want) <= to,
        is_char_boundary(bytes, reach(bytes, from, to, want)),
    decreases to - from,
{
    if from < to {
        is_char_boundary_iff_not_is_continuation_byte(bytes, from);
        if !(want <= 0 && !is_continuation_byte(bytes[from])) {
            lemma_reach(bytes, from + 1, to, want - utf16_units(bytes[from]));
        }
    }
}

/// Walking to as many units as lie before a boundary ends at that boundary.
proof fn lemma_reach_finds(bytes: Seq<u8>, from: int, at: int, to: int)
    requires
        valid_utf8(bytes),
        0 <= from <= at <= to <= bytes.len(),
        is_char_boundary(bytes, at),
    ensures
        reach(bytes, from, to, utf16_between(bytes, from, at) as int) == at,
    decreases at - from,
{
    if at < bytes.len() {
        is_char_boundary_iff_not_is_continuation_byte(bytes, at);
    }
    if from < at {
        lemma_utf16_split(bytes, from, from + 1, at);
        assert(utf16_between(bytes, from, from + 1) == utf16_units(bytes[from])) by {
            reveal_with_fuel(utf16_between, 2);
        }
        lemma_reach_finds(bytes, from + 1, at, to);
    }
}

/// Maps byte offsets to editor positions and back. Positions count UTF-16 code units within a
/// line.
#[derive(Debug)]
pub struct LineIndex {
    pub text: String,
    /// Byte offset of the start of each line.
    pub line_starts: Vec<usize>,
}

impl LineIndex {
    pub open spec fn bytes(self) -> Seq<u8> {
        encode_utf8(self.text@)
    }

    /// The recorded line starts are those of the text.
    pub open spec fn wf(self) -> bool {
        &&& self.bytes().len() <= usize::MAX
        &&& self.line_starts@ == line_starts_of(self.bytes(), self.bytes().len() as int)
    }

    pub fn new(text: &str) -> (r: Self)
        ensures
            r.wf(),
            r.text@ == text@,
    {
        let bytes = text.as_bytes();
        let mut line_starts: Vec<usize> = vec![0];
        assert(line_starts@ =~= seq![0usize]);
        let mut offset: usize = 0;
        while offset < bytes.len()
            invariant
                bytes@ == encode_utf8(text@),
                offset <= bytes@.len(),
                line_starts@ == line_starts_of(bytes@, offset as int),
            decreases bytes.len() - offset,
        {
            if bytes[offset] == 10 {
                line_starts.push(offset + 1);
            }
            offset = offset + 1;
        }
        Self { text: text.to_string(), line_starts }
    }

    /// The line of a byte offset: the last one that starts at or before it.
    fn line_of(&self, offset: usize) -> (r: usize)
        requires
            self.wf(),
            offset <= self.bytes().len(),
        ensures
            r == newlines_before(self.bytes(), offset as int),
            r < self.line_starts@.len(),
            self.line_starts@[r as int] == line_start(self.bytes(), offset as int),
    {
        let ghost b = self.bytes();
        proof {
            lemma_starts(b, offset as int);
            lemma_starts(b, b.len() as int);
            lemma_starts_prefix(b, offset as int, b.len() as int);
        }
        let mut low: usize = 0;
        let mut high: usize = self.line_starts.len();
        while low + 1 < high
            invariant
                self.wf(),
                b == self.bytes(),
                offset <= b.len(),
                low < high <= self.line_starts@.len(),
                self.line_starts@[low as int] <= offset,
                high < self.line_starts@.len() ==> offset < self.line_starts@[high as int],
                forall|i: int, j: int|
                    0 <= i < j < self.line_starts@.len() ==> self.line_starts@[i]
                        < self.line_starts@[j],
            decreases high - low,
        {
            let mid: usize = low + (high - low) / 2;
            if self.line_starts[mid] <= offset {
                low = mid;
            } else {
                high = mid;
            }
        }
        proof {
            let n = newlines_before(b, offset as int) as int;
            if low < n {
                assert(self.line_starts@[n] <= offset);
            }
            if n < low {
                assert(offset < self.line_starts@[low as int]);
            }
        }
        low
    }

    /// Converts a byte offset to a position. An offset past the end counts as the end.
    pub fn position_at(&self, offset: usize) -> (r: Position)
        requires
            self.wf(),
        ensures
            r == position_of(self.bytes(), within(self.bytes(), offset as int)),
    {
        let bytes = self.text.as_str().as_bytes();
        let offset = if offset <= bytes.len() {
            offset
        } else {
            bytes.len()
        };
        let line = self.line_of(offset);
        let start = self.line_starts[line];
        proof {
            lemma_starts(bytes@, offset as int);
        }
        let mut at: usize = start;
        let mut character: u128 = 0;
        while at < offset
            invariant
                bytes@ == encode_utf8(self.text@),
                start <= at <= offset <= bytes@.len(),
                character == utf16_between(bytes@, start as int, at as int),
                character <= 2 * (at - start),
            decreases offset - at,
        {
            let byte = bytes[at];
            if byte < 0x80 || 0xc0 <= byte {
                character = character + if byte >= 0xf0 { 2 } else { 1 };
            }
            at = at + 1;
        }
        Position::new(line as u32, character as u32)
    }

    /// Converts a position to a byte offset, or `None` if it falls outside the text. A character
    /// past the end of its line counts as that end.
    pub fn offset_at(&self, position: Position) -> (r: Option<usize>)
        requires
            self.wf(),
        ensures
            r is Some <==> offset_of(self.bytes(), position) is Some,
            r is Some ==> r->0 == offset_of(self.bytes(), position)->0 && on_boundary(
                self.text@,
                r->0 as int,
            ),
    {
        let bytes = self.text.as_str().as_bytes();
        let ghost b = self.bytes();
        proof {
            lemma_starts(b, b.len() as int);
        }
        if position.line as u64 >= self.line_starts.len() as u64 {
            return None;
        }
        let line = position.line as usize;
        let start = self.line_starts[line];
        let end = if line + 1 < self.line_starts.len() {
            self.line_starts[line + 1]
        } else {
            bytes.len()
        };
        let mut at: usize = start;
        let mut units: u128 = 0;
        proof {
            assert(end == line_end(b, line as int));
            encode_utf8_valid_utf8(self.text@);
            lemma_line_start_boundary(self.text@, b.len() as int, line as int);
            if line + 1 < self.line_starts@.len() {
                lemma_line_start_boundary(self.text@, b.len() as int, line + 1);
            } else {
                is_char_boundary_start_end_of_seq(b);
            }
            lemma_reach(b, start as int, end as int, position.character as int);
        }
        while at < end
            invariant
                bytes@ == b,
                b == encode_utf8(self.text@),
                start <= at <= end <= b.len(),
                units <= 2 * (at - start),
                offset_of(b, position) == Some(
                    reach(b, start as int, end as int, position.character as int),
                ),
                reach(b, start as int, end as int, position.character as int) == reach(
                    b,
                    at as int,
                    end as int,
                    position.character - units,
                ),
                on_boundary(
                    self.text@,
                    reach(b, start as int, end as int, position.character as int),
                ),
            decreases end - at,
        {
            let byte = bytes[at];
            if byte < 0x80 || 0xc0 <= byte {
                if units >= position.character as u128 {
                    return Some(at);
                }
                units = units + if byte >= 0xf0 { 2 } else { 1 };
            }
            at = at + 1;
        }
        Some(end)
    }

    /// Like [`offset_at`](Self::offset_at), with a position outside the text taken for its end.
    pub fn offset_clamped(&self, position: Position) -> (r: usize)
        requires
            self.wf(),
        ensures
            r == match offset_of(self.bytes(), position) {
                Some(offset) => offset,
                None => self.bytes().len() as int,
            },
            on_boundary(self.text@, r as int),
            r <= self.bytes().len(),
    {
        proof {
            encode_utf8_valid_utf8(self.text@);
            is_char_boundary_start_end_of_seq(self.bytes());
        }
        let r = match self.offset_at(position) {
            Some(offset) => offset,
            None => self.text.as_str().as_bytes().len(),
        };
        proof {
            lemma_boundary_in_range(self.bytes(), r as int);
        }
        r
    }

    /// The range of a span.
    pub fn range_of(&self, span: Span) -> (r: Range)
        requires
            self.wf(),
        ensures
            r == range_between(self.bytes(), span),
    {
        Range { start: self.position_at(span.start), end: self.position_at(span.end) }
    }
}

/// A line starts at a character.
proof fn lemma_line_start_boundary(text: Seq<char>, n: int, line: int)
    requires
        encode_utf8(text).len() <= usize::MAX,
        0 <= n <= encode_utf8(text).len(),
        0 <= line < line_starts_of(encode_utf8(text), n).len(),
    ensures
        on_boundary(text, line_starts_of(encode_utf8(text), n)[line] as int),
    decreases n,
{
    let b = encode_utf8(text);
    encode_utf8_valid_utf8(text);
    if n > 0 {
        if b[n - 1] == 10 && line == line_starts_of(b, n).len() - 1 {
            is_char_boundary_start_end_of_seq(b);
            if n < b.len() {
                is_char_boundary_iff_not_is_continuation_byte(b, n);
                lemma_after_ascii(b, n);
            }
        } else {
            lemma_line_start_boundary(text, n - 1, line);
        }
    } else {
        is_char_boundary_start_end_of_seq(b);
    }
}

/// The offset of a position starts a character, or ends the text.
pub proof fn lemma_offset_boundary(text: Seq<char>, position: Position)
    requires
        encode_utf8(text).len() <= usize::MAX,
    ensures
        offset_of(encode_utf8(text), position) matches Some(at) ==> on_boundary(text, at) && 0 <= at
            <= encode_utf8(text).len(),
{
    let b = encode_utf8(text);
    encode_utf8_valid_utf8(text);
    lemma_starts(b, b.len() as int);
    let starts = line_starts_of(b, b.len() as int);
    if position.line < starts.len() {
        let line = position.line as int;
        lemma_line_start_boundary(text, b.len() as int, line);
        if line + 1 < starts.len() {
            lemma_line_start_boundary(text, b.len() as int, line + 1);
        } else {
            is_char_boundary_start_end_of_seq(b);
        }
        let end = line_end(b, line);
        lemma_boundary_in_range(b, end);
        lemma_boundary_in_range(b, starts[line] as int);
        lemma_reach(b, starts[line] as int, end, position.character as int);
        lemma_boundary_in_range(b, offset_of(b, position)->0);
    }
}

/// What follows an ASCII byte of valid UTF-8 is not a continuation byte.
pub proof fn lemma_after_ascii(bytes: Seq<u8>, at: int)
    requires
        valid_utf8(bytes),
        0 < at < bytes.len(),
        bytes[at - 1] < 0x80,
    ensures
        !is_continuation_byte(bytes[at]),
    decreases bytes.len(),
{
    let first = length_of_first_scalar(bytes);
    if at == first {
        let rest = pop_first_scalar(bytes);
        assert(rest.len() > 0);
        assert(bytes[at] == rest[0]);
        reveal_with_fuel(valid_utf8, 2);
    } else if at < first {
        assert(valid_first_scalar(bytes));
        assert(is_continuation_byte(bytes[at - 1]) || at == 1);
    } else {
        let rest = pop_first_scalar(bytes);
        lemma_after_ascii(rest, at - first);
    }
}

/// The offset of a position that an offset was converted to is that offset again, for every
/// character whose line and place in it fit the fields of a position.
pub proof fn law_offset_at_undoes_position_at(text: Seq<char>, at: int)
    requires
        encode_utf8(text).len() <= usize::MAX,
        has_position(encode_utf8(text), at),
        on_boundary(text, at),
    ensures
        offset_of(encode_utf8(text), position_of(encode_utf8(text), at)) == Some(at),
{
    let b = encode_utf8(text);
    encode_utf8_valid_utf8(text);
    lemma_boundary_in_range(b, at);
    lemma_starts(b, at);
    lemma_starts(b, b.len() as int);
    lemma_starts_prefix(b, at, b.len() as int);
    lemma_newlines_monotonic(b, at, at);
    let line = newlines_before(b, at) as int;
    assert(at <= line_end(b, line));
    assert(line_end(b, line) <= b.len());
    lemma_reach_finds(b, line_start(b, at), at, line_end(b, line));
}

/// Positions keep the order of the offsets they come from, and two characters never share one.
pub proof fn law_position_at_is_monotonic(text: Seq<char>, a: int, b: int)
    requires
        has_position(encode_utf8(text), a),
        has_position(encode_utf8(text), b),
        0 <= a <= b <= encode_utf8(text).len(),
    ensures
        ({
            let pa = position_of(encode_utf8(text), a);
            let pb = position_of(encode_utf8(text), b);
            &&& pa.line < pb.line || (pa.line == pb.line && pa.character <= pb.character)
            &&& a < b && on_boundary(text, a) ==> pa != pb
        }),
{
    let bytes = encode_utf8(text);
    lemma_newlines_monotonic(bytes, a, b);
    if newlines_before(bytes, a) == newlines_before(bytes, b) {
        lemma_same_line(bytes, a, b);
        lemma_line_start_range(bytes, a);
        lemma_utf16_split(bytes, line_start(bytes, b), a, b);
        if a < b && on_boundary(text, a) {
            encode_utf8_valid_utf8(text);
            is_char_boundary_iff_not_is_continuation_byte(bytes, a);
            lemma_utf16_split(bytes, a, a + 1, b);
            assert(utf16_between(bytes, a, a + 1) == utf16_units(bytes[a])) by {
                reveal_with_fuel(utf16_between, 2);
            }
        }
    }
}

pub proof fn lemma_line_start_range(bytes: Seq<u8>, at: int)
    requires
        0 <= at,
    ensures
        0 <= line_start(bytes, at) <= at,
    decreases at,
{
    if at > 0 {
        lemma_line_start_range(bytes, at - 1);
    }
}

/// The line of a position is the number of newlines before its offset.
pub proof fn law_position_line_counts_newlines(text: Seq<char>, at: int)
    requires
        newlines_before(encode_utf8(text), at) <= u32::MAX,
        0 <= at <= encode_utf8(text).len(),
    ensures
        position_of(encode_utf8(text), at).line == newlines_before(encode_utf8(text), at),
{
}

/// The UTF-16 length read off the bytes of a text is the UTF-16 length of its characters.
pub proof fn law_utf16_units_are_those_of_the_characters(text: Seq<char>)
    ensures
        utf16_between(encode_utf8(text), 0, encode_utf8(text).len() as int) == utf16_len(text),
    decreases text.len(),
{
    let b = encode_utf8(text);
    if text.len() > 0 {
        let rest = text.drop_first();
        let head = encode_scalar(text[0] as u32);
        let tail = encode_utf8(rest);
        encode_utf8_first_scalar(text);
        char_is_scalar(text[0]);
        law_utf16_units_are_those_of_the_characters(rest);
        assert(b == head + tail);
        lemma_utf16_split(b, 0, head.len() as int, b.len() as int);
        lemma_utf16_shift(head, tail, tail.len() as int);
        reveal_with_fuel(utf16_between, 5);
        assert forall|i: int| 0 <= i < head.len() implies b[i] == head[i] by {}
    }
}

proof fn lemma_utf16_shift(head: Seq<u8>, tail: Seq<u8>, to: int)
    requires
        0 <= to <= tail.len(),
    ensures
        utf16_between(head + tail, head.len() as int, head.len() + to) == utf16_between(
            tail,
            0,
            to,
        ),
    decreases to,
{
    if to > 0 {
        lemma_utf16_shift(head, tail, to - 1);
        assert((head + tail)[head.len() + to - 1] == tail[to - 1]);
    }
}

/// The offset at which the line holding `offset` starts. An offset past the end counts as the end.
pub fn start_of_line(src: &str, offset: usize) -> (r: usize)
    ensures
        r == line_start(encode_utf8(src@), within(encode_utf8(src@), offset as int)),
{
    let bytes = src.as_bytes();
    let mut at: usize = if offset <= bytes.len() {
        offset
    } else {
        bytes.len()
    };
    while at > 0 && bytes[at - 1] != 10
        invariant
            bytes@ == encode_utf8(src@),
            at <= bytes@.len(),
            line_start(bytes@, at as int) == line_start(bytes@, within(bytes@, offset as int)),
        decreases at,
    {
        at = at - 1;
    }
    at
}

} // verus!
