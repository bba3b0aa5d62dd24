//! Text as the rest of the library sees it: a sequence of characters, addressed by the byte
//! offsets of its UTF-8 encoding.
use vstd::prelude::*;
use vstd::string::{StrSliceExecFns, StringExecFns};
use vstd::utf8::*;

verus! {

/// Whether `at` is a byte offset at which a character of `text` starts, or its end.
pub open spec fn on_boundary(text: Seq<char>, at: int) -> bool {
    is_char_boundary(encode_utf8(text), at)
}

/// The characters between two byte offsets of `text`.
pub open spec fn piece(text: Seq<char>, from: int, to: int) -> Seq<char> {
    decode_utf8(encode_utf8(text).subrange(from, to))
}

/// Whether `from..to` can be cut out of `text`.
pub open spec fn can_cut(text: Seq<char>, from: int, to: int) -> bool {
    0 <= from <= to && on_boundary(text, from) && on_boundary(text, to)
}

/// A boundary lies inside the text.
pub proof fn lemma_boundary_in_range(bytes: Seq<u8>, at: int)
    requires
        valid_utf8(bytes),
        is_char_boundary(bytes, at),
    ensures
        0 <= at <= bytes.len(),
    decreases bytes.len(),
{
    if at != 0 && 0 <= at <= bytes.len() {
    }
}

/// A boundary of a text, at or after another one, is a boundary of what follows the first.
pub proof fn lemma_boundary_after(bytes: Seq<u8>, from: int, at: int)
    requires
        valid_utf8(bytes),
        0 <= from <= at <= bytes.len(),
        is_char_boundary(bytes, from),
    ensures
        valid_utf8(bytes.subrange(from, bytes.len() as int)),
        is_char_boundary(bytes, at) <==> is_char_boundary(
            bytes.subrange(from, bytes.len() as int),
            at - from,
        ),
{
    valid_utf8_split(bytes, from);
    let rest = bytes.subrange(from, bytes.len() as int);
    is_char_boundary_start_end_of_seq(bytes);
    is_char_boundary_start_end_of_seq(rest);
    if at < bytes.len() {
        is_char_boundary_iff_not_is_continuation_byte(bytes, at);
        is_char_boundary_iff_not_is_continuation_byte(rest, at - from);
        assert(rest[at - from] == bytes[at]);
    }
}

/// Two texts with the same bytes are the same text.
pub proof fn lemma_bytes_injective(a: Seq<char>, b: Seq<char>)
    requires
        encode_utf8(a) == encode_utf8(b),
    ensures
        a == b,
{
    encode_utf8_decode_utf8(a);
    encode_utf8_decode_utf8(b);
}

/// The bytes of a piece are the bytes between its offsets.
pub proof fn lemma_piece_bytes(text: Seq<char>, from: int, to: int)
    requires
        can_cut(text, from, to),
    ensures
        to <= encode_utf8(text).len(),
        valid_utf8(encode_utf8(text).subrange(from, to)),
        encode_utf8(piece(text, from, to)) == encode_utf8(text).subrange(from, to),
{
    let b = encode_utf8(text);
    encode_utf8_valid_utf8(text);
    lemma_boundary_in_range(b, to);
    lemma_boundary_after(b, from, to);
    let rest = b.subrange(from, b.len() as int);
    valid_utf8_split(rest, to - from);
    assert(rest.subrange(0, to - from) =~= b.subrange(from, to));
    decode_utf8_encode_utf8(b.subrange(from, to));
}

/// The part of `text` between two byte offsets.
pub fn slice(text: &str, from: usize, to: usize) -> (r: &str)
    requires
        can_cut(text@, from as int, to as int),
    ensures
        r@ == piece(text@, from as int, to as int),
        encode_utf8(r@) == encode_utf8(text@).subrange(from as int, to as int),
{
    proof {
        lemma_piece_bytes(text@, from as int, to as int);
        encode_utf8_valid_utf8(text@);
        lemma_boundary_after(encode_utf8(text@), from as int, to as int);
    }
    let tail = text.split_at(from).1;
    let r = tail.split_at(to - from).0;
    proof {
        let b = encode_utf8(text@);
        assert(encode_utf8(r@) =~= b.subrange(from as int, to as int));
        encode_utf8_decode_utf8(r@);
    }
    r
}

/// Whether two texts are the same.
pub fn same(a: &str, b: &str) -> (r: bool)
    ensures
        r == (a@ == b@),
{
    let x = a.as_bytes();
    let y = b.as_bytes();
    proof {
        if encode_utf8(a@) == encode_utf8(b@) {
            lemma_bytes_injective(a@, b@);
        }
    }
    if x.len() != y.len() {
        return false;
    }
    let mut i: usize = 0;
    while i < x.len()
        invariant
            x@ == encode_utf8(a@),
            y@ == encode_utf8(b@),
            x@.len() == y@.len(),
            i <= x@.len(),
            forall|j: int| 0 <= j < i ==> x@[j] == y@[j],
        decreases x.len() - i,
    {
        if x[i] != y[i] {
            return false;
        }
        i = i + 1;
    }
    assert(x@ =~= y@);
    proof {
        lemma_bytes_injective(a@, b@);
    }
    true
}

/// The characters between two byte offsets, or nothing where the text cannot be cut there.
pub open spec fn cut_of(text: Seq<char>, from: int, to: int) -> Seq<char> {
    if can_cut(text, from, to) {
        piece(text, from, to)
    } else {
        Seq::empty()
    }
}

/// The part of `text` between two byte offsets. Offsets out of order, or off the character
/// boundaries of the text, cut out nothing.
pub fn cut(text: &str, from: usize, to: usize) -> (r: &str)
    ensures
        r@ == cut_of(text@, from as int, to as int),
{
    if from <= to && text.is_char_boundary(from) && text.is_char_boundary(to) {
        slice(text, from, to)
    } else {
        proof {
            reveal_strlit("");
        }
        assert(""@ =~= Seq::<char>::empty());
        ""
    }
}

/// `text` with the bytes `[from, to)` replaced by `with`, or `text` itself where it cannot be cut
/// there.
pub open spec fn replaced(text: Seq<char>, from: int, to: int, with: Seq<char>) -> Seq<char> {
    if can_cut(text, from, to) {
        piece(text, 0, from) + with + piece(text, to, encode_utf8(text).len() as int)
    } else {
        text
    }
}

/// Replaces the bytes `[from, to)` of `text`.
pub fn replace_range(text: &str, from: usize, to: usize, with: &str) -> (r: String)
    ensures
        r@ == replaced(text@, from as int, to as int, with@),
{
    if from <= to && text.is_char_boundary(from) && text.is_char_boundary(to) {
        proof {
            encode_utf8_valid_utf8(text@);
            is_char_boundary_start_end_of_seq(encode_utf8(text@));
            lemma_boundary_in_range(encode_utf8(text@), to as int);
        }
        let len = text.as_bytes().len();
        let mut out = slice(text, 0, from).to_string();
        out.append(with);
        out.append(slice(text, to, len));
        out
    } else {
        text.to_string()
    }
}

/// Unicode's white space characters.
pub open spec fn white(c: char) -> bool {
    let n = c as u32;
    ||| 0x9 <= n <= 0xd
    ||| n == 0x20
    ||| n == 0x85
    ||| n == 0xa0
    ||| n == 0x1680
    ||| 0x2000 <= n <= 0x200a
    ||| n == 0x2028
    ||| n == 0x2029
    ||| n == 0x202f
    ||| n == 0x205f
    ||| n == 0x3000
}

/// Whether `c` is white space.
pub fn is_white(c: char) -> (r: bool)
    ensures
        r == white(c),
{
    let n = c as u32;
    (0x9 <= n && n <= 0xd) || n == 0x20 || n == 0x85 || n == 0xa0 || n == 0x1680 || (0x2000 <= n
        && n <= 0x200a) || n == 0x2028 || n == 0x2029 || n == 0x202f || n == 0x205f || n == 0x3000
}

/// How many white space characters `text` starts with.
pub open spec fn leading_white(text: Seq<char>) -> nat
    decreases text.len(),
{
    if text.len() > 0 && white(text[0]) {
        1 + leading_white(text.drop_first())
    } else {
        0
    }
}

/// How many white space characters `text` ends with.
pub open spec fn trailing_white(text: Seq<char>) -> nat
    decreases text.len(),
{
    if text.len() > 0 && white(text.last()) {
        1 + trailing_white(text.drop_last())
    } else {
        0
    }
}

pub proof fn lemma_white_counts(text: Seq<char>)
    ensures
        leading_white(text) <= text.len(),
        trailing_white(text) <= text.len(),
    decreases text.len(),
{
    if text.len() > 0 {
        lemma_white_counts(text.drop_first());
        lemma_white_counts(text.drop_last());
    }
}

/// `text` without the white space at its start.
pub open spec fn trimmed_start(text: Seq<char>) -> Seq<char> {
    text.subrange(leading_white(text) as int, text.len() as int)
}

/// `text` without the white space at its end.
pub open spec fn trimmed_end(text: Seq<char>) -> Seq<char> {
    text.subrange(0, text.len() - trailing_white(text))
}

/// `text` without the white space at either end.
pub open spec fn trimmed(text: Seq<char>) -> Seq<char> {
    trimmed_end(trimmed_start(text))
}

/// The characters of a text, for access by index.
pub fn chars_of(text: &str) -> (r: Vec<char>)
    ensures
        r@ == text@,
{
    let mut out: Vec<char> = Vec::new();
    for c in it: text.chars()
        invariant
            it.seq() == text@,
            out@ == text@.subrange(0, it.index() as int),
    {
        out.push(c);
        assert(out@ =~= text@.subrange(0, it.index() + 1));
    }
    assert(out@ =~= text@);
    out
}

/// Drops the white space at the start of `text`.
pub fn trim_start(text: &str) -> (r: &str)
    ensures
        r@ == trimmed_start(text@),
{
    let chars = chars_of(text);
    let mut i: usize = 0;
    assert(text@.subrange(0, text@.len() as int) =~= text@);
    while i < chars.len() && is_white(chars[i])
        invariant
            chars@ == text@,
            i <= chars@.len(),
            leading_white(text@) == i + leading_white(text@.subrange(i as int, text@.len() as int)),
        decreases chars.len() - i,
    {
        assert(text@.subrange(i as int, text@.len() as int).drop_first() =~= text@.subrange(
            i + 1,
            text@.len() as int,
        ));
        i = i + 1;
    }
    text.substring_char(i, chars.len())
}

/// Drops the white space at the end of `text`.
pub fn trim_end(text: &str) -> (r: &str)
    ensures
        r@ == trimmed_end(text@),
{
    let chars = chars_of(text);
    let mut i: usize = chars.len();
    assert(text@.subrange(0, text@.len() as int) =~= text@);
    while i > 0 && is_white(chars[i - 1])
        invariant
            chars@ == text@,
            i <= chars@.len(),
            trailing_white(text@) == chars@.len() - i + trailing_white(text@.subrange(0, i as int)),
        decreases i,
    {
        assert(text@.subrange(0, i as int).drop_last() =~= text@.subrange(0, i - 1));
        i = i - 1;
    }
    text.substring_char(0, i)
}

/// Drops the white space at both ends of `text`.
pub fn trim(text: &str) -> (r: &str)
    ensures
        r@ == trimmed(text@),
{
    trim_end(trim_start(text))
}

/// A half-open range of bytes with the white space at its ends left out.
pub open spec fn trimmed_range(text: Seq<char>, from: int, to: int) -> (int, int) {
    let raw = cut_of(text, from, to);
    let lead = encode_utf8(raw).len() - encode_utf8(trimmed_start(raw)).len();
    let trail = encode_utf8(raw).len() - encode_utf8(trimmed_end(raw)).len();
    (from + lead, to - trail)
}

/// Whether all of `text` is white space.
pub open spec fn all_white(text: Seq<char>) -> bool {
    forall|i: int| 0 <= i < text.len() ==> white(#[trigger] text[i])
}

pub fn is_blank(text: &str) -> (r: bool)
    ensures
        r == all_white(text@),
{
    let chars = chars_of(text);
    let mut i: usize = 0;
    while i < chars.len()
        invariant
            chars@ == text@,
            i <= chars@.len(),
            forall|j: int| 0 <= j < i ==> white(#[trigger] text@[j]),
        decreases chars.len() - i,
    {
        if !is_white(chars[i]) {
            return false;
        }
        i = i + 1;
    }
    true
}

/// The bytes of two texts in a row are the bytes of the one and then of the other.
pub proof fn lemma_encode_concat(a: Seq<char>, b: Seq<char>)
    ensures
        encode_utf8(a + b) == encode_utf8(a) + encode_utf8(b),
    decreases a.len(),
{
    if a.len() == 0 {
        assert(a + b =~= b);
        assert(encode_utf8(a) + encode_utf8(b) =~= encode_utf8(b));
    } else {
        lemma_encode_concat(a.drop_first(), b);
        assert((a + b).drop_first() =~= a.drop_first() + b);
        assert((a + b)[0] == a[0]);
        assert(encode_utf8(a + b) =~= encode_utf8(a) + encode_utf8(b));
    }
}

/// The middle one of three texts in a row can be cut out of them.
pub proof fn lemma_cut_middle(before: Seq<char>, text: Seq<char>, behind: Seq<char>)
    ensures
        ({
            let whole = before + text + behind;
            let from = encode_utf8(before).len() as int;
            let to = from + encode_utf8(text).len();
            can_cut(whole, from, to) && piece(whole, from, to) == text
        }),
{
    let whole = before + text + behind;
    let from = encode_utf8(before).len() as int;
    let to = from + encode_utf8(text).len();
    lemma_encode_concat(before + text, behind);
    lemma_encode_concat(before, text);
    lemma_encode_concat(text, behind);
    let bytes = encode_utf8(whole);
    assert(bytes =~= encode_utf8(before) + encode_utf8(text) + encode_utf8(behind));
    lemma_starts_after(before, text + behind);
    lemma_starts_after(before + text, behind);
    assert(before + (text + behind) =~= whole);
    assert(bytes.subrange(from, to) =~= encode_utf8(text));
    encode_utf8_decode_utf8(text);
}

/// The end of the first of two texts in a row is a boundary.
proof fn lemma_starts_after(before: Seq<char>, behind: Seq<char>)
    ensures
        on_boundary(before + behind, encode_utf8(before).len() as int),
{
    let bytes = encode_utf8(before + behind);
    let own = encode_utf8(behind);
    let at = encode_utf8(before).len() as int;
    lemma_encode_concat(before, behind);
    encode_utf8_valid_utf8(before + behind);
    encode_utf8_valid_utf8(behind);
    is_char_boundary_start_end_of_seq(bytes);
    is_char_boundary_start_end_of_seq(own);
    if own.len() > 0 {
        is_char_boundary_iff_not_is_continuation_byte(own, 0);
        is_char_boundary_iff_not_is_continuation_byte(bytes, at);
        assert(bytes[at] == own[0]);
    }
}

/// A text is what comes before a piece of it, the piece, and what comes behind it.
pub proof fn lemma_around_piece(text: Seq<char>, from: int, to: int)
    requires
        can_cut(text, from, to),
    ensures
        can_cut(text, 0, from),
        can_cut(text, to, encode_utf8(text).len() as int),
        encode_utf8(piece(text, 0, from)).len() == from,
        encode_utf8(piece(text, from, to)).len() == to - from,
        text == piece(text, 0, from) + piece(text, from, to) + piece(
            text,
            to,
            encode_utf8(text).len() as int,
        ),
{
    let bytes = encode_utf8(text);
    let n = bytes.len() as int;
    encode_utf8_valid_utf8(text);
    is_char_boundary_start_end_of_seq(bytes);
    lemma_piece_bytes(text, from, to);
    lemma_piece_bytes(text, 0, from);
    lemma_piece_bytes(text, to, n);
    let whole = piece(text, 0, from) + piece(text, from, to) + piece(text, to, n);
    lemma_encode_concat(piece(text, 0, from) + piece(text, from, to), piece(text, to, n));
    lemma_encode_concat(piece(text, 0, from), piece(text, from, to));
    assert(encode_utf8(whole) =~= bytes);
    lemma_bytes_injective(whole, text);
}

/// Replacing a part of a piece of a text: the part is where it was, and the piece holds the
/// replacement in its place.
pub proof fn lemma_replaced_inside(
    text: Seq<char>,
    from: int,
    to: int,
    head: Seq<char>,
    part: Seq<char>,
    tail: Seq<char>,
    with: Seq<char>,
)
    requires
        can_cut(text, from, to),
        piece(text, from, to) == head + part + tail,
    ensures
        ({
            let start = from + encode_utf8(head).len();
            let end = start + encode_utf8(part).len();
            let after = replaced(text, start, end, with);
            let now = head + with + tail;
            &&& can_cut(text, start, end)
            &&& piece(text, start, end) == part
            &&& end + encode_utf8(tail).len() == to
            &&& can_cut(after, from, from + encode_utf8(now).len())
            &&& piece(after, from, from + encode_utf8(now).len()) == now
            &&& encode_utf8(now).len() == encode_utf8(head).len() + encode_utf8(with).len()
                + encode_utf8(tail).len()
        }),
{
    let none = Seq::<char>::empty();
    let before = piece(text, 0, from) + head;
    let behind = tail + piece(text, to, encode_utf8(text).len() as int);
    let start = from + encode_utf8(head).len();
    let end = start + encode_utf8(part).len();
    lemma_around_piece(text, from, to);
    lemma_encode_concat(piece(text, 0, from), head);
    lemma_encode_concat(head + part, tail);
    lemma_encode_concat(head, part);
    lemma_encode_concat(head + with, tail);
    lemma_encode_concat(head, with);
    assert(text =~= before + part + behind);
    lemma_cut_middle(before, part, behind);
    assert(text =~= none + before + (part + behind));
    lemma_cut_middle(none, before, part + behind);
    assert(text =~= (before + part) + behind + none);
    lemma_cut_middle(before + part, behind, none);
    lemma_encode_concat(before, part);
    lemma_encode_concat(before + part, behind);
    let now = head + with + tail;
    let rest = piece(text, to, encode_utf8(text).len() as int);
    assert(replaced(text, start, end, with) =~= before + with + behind);
    assert(before + with + behind =~= piece(text, 0, from) + now + rest);
    lemma_cut_middle(piece(text, 0, from), now, rest);
}

/// A text of ASCII characters has a byte for each of them.
pub proof fn lemma_ascii_len(text: Seq<char>)
    requires
        forall|i: int| 0 <= i < text.len() ==> (#[trigger] text[i]) as u32 <= 0x7f,
    ensures
        encode_utf8(text).len() == text.len(),
    decreases text.len(),
{
    if text.len() > 0 {
        lemma_ascii_len(text.drop_first());
    }
}

/// Trimming never lengthens a text.
pub proof fn lemma_trim_shortens(text: Seq<char>)
    ensures
        encode_utf8(trimmed_start(text)).len() <= encode_utf8(text).len(),
        encode_utf8(trimmed_end(text)).len() <= encode_utf8(text).len(),
{
    lemma_white_counts(text);
    let lead = leading_white(text) as int;
    let keep = text.len() - trailing_white(text);
    assert(text =~= text.subrange(0, lead) + trimmed_start(text));
    lemma_encode_concat(text.subrange(0, lead), trimmed_start(text));
    assert(text =~= trimmed_end(text) + text.subrange(keep, text.len() as int));
    lemma_encode_concat(trimmed_end(text), text.subrange(keep, text.len() as int));
}

/// Narrows a range of bytes by the white space at its ends.
pub fn trim_range(text: &str, from: usize, to: usize) -> (r: (usize, usize))
    ensures
        (r.0 as int, r.1 as int) == trimmed_range(text@, from as int, to as int),
{
    let raw = cut(text, from, to);
    let len = raw.as_bytes().len();
    let lead = len - trim_start_len(raw);
    let trail = len - trim_end_len(raw);
    proof {
        lemma_trim_shortens(raw@);
        if can_cut(text@, from as int, to as int) {
            lemma_piece_bytes(text@, from as int, to as int);
            encode_utf8_valid_utf8(text@);
            lemma_boundary_in_range(encode_utf8(text@), to as int);
            assert(encode_utf8(raw@).len() == to - from);
        }
    }
    (from + lead, to - trail)
}

fn trim_start_len(text: &str) -> (r: usize)
    ensures
        r == encode_utf8(trimmed_start(text@)).len(),
        r <= encode_utf8(text@).len(),
{
    proof {
        lemma_trim_shortens(text@);
    }
    trim_start(text).as_bytes().len()
}

fn trim_end_len(text: &str) -> (r: usize)
    ensures
        r == encode_utf8(trimmed_end(text@)).len(),
        r <= encode_utf8(text@).len(),
{
    proof {
        lemma_trim_shortens(text@);
    }
    trim_end(text).as_bytes().len()
}

/// Whether `text` holds the character `c`.
pub fn holds(text: &str, c: char) -> (r: bool)
    ensures
        r == text@.contains(c),
{
    let chars = chars_of(text);
    let mut i: usize = 0;
    while i < chars.len()
        invariant
            chars@ == text@,
            i <= chars@.len(),
            forall|j: int| 0 <= j < i ==> text@[j] != c,
        decreases chars.len() - i,
    {
        if chars[i] == c {
            assert(text@[i as int] == c);
            return true;
        }
        i = i + 1;
    }
    false
}

/// Whether `c` is an ASCII letter.
pub open spec fn letter(c: char) -> bool {
    'a' <= c <= 'z' || 'A' <= c <= 'Z'
}

pub fn is_letter(c: char) -> (r: bool)
    ensures
        r == letter(c),
{
    ('a' <= c && c <= 'z') || ('A' <= c && c <= 'Z')
}

} // verus!
