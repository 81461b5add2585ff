use vstd::prelude::*;
use vstd::string::StringSliceAdditionalSpecFns;
use crate::number::{JsonNumber, NumberView, token_number, is_digit, MAX_NUMBER_TOKEN};
use crate::text::string_from_utf8;
use crate::tree::{
    CJSON, Node, JsonKind, blank, with_text, with_number, with_children, keyed, lemma_children,
    cjson_create_array, cjson_create_object, cjson_create_number, cjson_create_null,
    cjson_create_true, cjson_create_false,
};

verus! {

/// Deepest nesting of arrays and objects that the parser accepts.
pub const CJSON_NESTING_LIMIT: usize = 1000;

/// Space, tab, line feed and carriage return.
pub open spec fn is_ws(c: u8) -> bool {
    c == 32u8 || c == 9u8 || c == 10u8 || c == 13u8
}

/// Index of the first byte at or after `i`, and before `len`, that is no whitespace.
pub open spec fn ws_end(b: Seq<u8>, len: int, i: int) -> int
    decreases len - i,
{
    if 0 <= i < len && i < b.len() && is_ws(b[i]) {
        ws_end(b, len, i + 1)
    } else {
        i
    }
}

/// Whether `b[i..]` starts with `word` within the first `len` bytes.
pub open spec fn word_at(b: Seq<u8>, len: int, i: int, word: Seq<u8>) -> bool {
    0 <= i && i + word.len() <= len && len <= b.len() && b.subrange(i, i + word.len()) == word
}

pub open spec fn hex_value(c: u8) -> Option<u32> {
    if 48 <= c <= 57 {
        Some((c - 48) as u32)
    } else if 65 <= c <= 70 {
        Some((c - 55) as u32)
    } else if 97 <= c <= 102 {
        Some((c - 87) as u32)
    } else {
        None
    }
}

/// The value of the four hex digits at `b[i..i + 4]`.
pub open spec fn hex4(b: Seq<u8>, i: int) -> Option<u32> {
    match (hex_value(b[i]), hex_value(b[i + 1]), hex_value(b[i + 2]), hex_value(b[i + 3])) {
        (Some(a), Some(c), Some(d), Some(e)) => Some((a * 4096 + c * 256 + d * 16 + e) as u32),
        _ => None,
    }
}

/// The UTF-8 encoding of the code point `cp` (at most U+10FFFF).
pub open spec fn utf8_of(cp: u32) -> Seq<u8> {
    if cp < 0x80 {
        seq![cp as u8]
    } else if cp < 0x800 {
        seq![(0xC0 + cp / 64) as u8, (0x80 + cp % 64) as u8]
    } else if cp < 0x10000 {
        seq![(0xE0 + cp / 4096) as u8, (0x80 + (cp / 64) % 64) as u8, (0x80 + cp % 64) as u8]
    } else {
        seq![
            (0xF0 + cp / 262144) as u8,
            (0x80 + (cp / 4096) % 64) as u8,
            (0x80 + (cp / 64) % 64) as u8,
            (0x80 + cp % 64) as u8,
        ]
    }
}

pub open spec fn is_high_surrogate(u: u32) -> bool {
    0xD800 <= u <= 0xDBFF
}

pub open spec fn is_low_surrogate(u: u32) -> bool {
    0xDC00 <= u <= 0xDFFF
}

/// The `\uXXXX` escape (or `\uXXXX\uXXXX` surrogate pair) at `b[p..]`,
/// which must end before `end`: the UTF-8 bytes of its code point and the
/// number of input bytes it takes.
pub open spec fn utf16_at(b: Seq<u8>, p: int, end: int) -> Option<(Seq<u8>, int)> {
    if p < 0 || end > b.len() || end - p < 6 {
        None
    } else {
        match hex4(b, p + 2) {
            None => None,
            Some(first) => if is_low_surrogate(first) {
                None
            } else if is_high_surrogate(first) {
                if end - p < 12 || b[p + 6] != 92u8 || b[p + 7] != 117u8 {
                    None
                } else {
                    match hex4(b, p + 8) {
                        Some(second) => if is_low_surrogate(second) {
                            Some(
                                (
                                    utf8_of(
                                        (0x10000 + (first - 0xD800) * 0x400 + (second
                                            - 0xDC00)) as u32,
                                    ),
                                    12,
                                ),
                            )
                        } else {
                            None
                        },
                        None => None,
                    }
                }
            } else {
                Some((utf8_of(first), 6))
            },
        }
    }
}

/// The byte that a one-character escape `\c` stands for.
pub open spec fn simple_escape(c: u8) -> Option<u8> {
    if c == 98u8 {
        Some(8u8)
    } else if c == 102u8 {
        Some(12u8)
    } else if c == 110u8 {
        Some(10u8)
    } else if c == 114u8 {
        Some(13u8)
    } else if c == 116u8 {
        Some(9u8)
    } else if c == 34u8 || c == 92u8 || c == 47u8 {
        Some(c)
    } else {
        None
    }
}

/// The bytes that the body `b[p..end]` of a string literal stands for, once
/// its escapes are resolved; `None` at an invalid escape.
pub open spec fn unescape(b: Seq<u8>, p: int, end: int) -> Option<Seq<u8>>
    decreases end - p,
{
    if p < 0 || p >= end || end > b.len() {
        Some(Seq::empty())
    } else if b[p] != 92u8 {
        match unescape(b, p + 1, end) {
            Some(rest) => Some(seq![b[p]] + rest),
            None => None,
        }
    } else if p + 1 >= end {
        None
    } else if b[p + 1] == 117u8 {
        match utf16_at(b, p, end) {
            Some((bytes, n)) => if n <= 0 {
                None
            } else {
                match unescape(b, p + n, end) {
                    Some(rest) => Some(bytes + rest),
                    None => None,
                }
            },
            None => None,
        }
    } else {
        match simple_escape(b[p + 1]) {
            Some(c) => match unescape(b, p + 2, end) {
                Some(rest) => Some(seq![c] + rest),
                None => None,
            },
            None => None,
        }
    }
}

/// Index of the double quote that closes a string literal whose body starts
/// at `p`; a backslash takes the byte after it along.
pub open spec fn closing_quote(b: Seq<u8>, len: int, p: int) -> Option<int>
    decreases len - p,
{
    if p < 0 || p >= len || len > b.len() {
        None
    } else if b[p] == 34u8 {
        Some(p)
    } else if b[p] == 92u8 {
        if p + 1 >= len {
            None
        } else {
            closing_quote(b, len, p + 2)
        }
    } else {
        closing_quote(b, len, p + 1)
    }
}

/// The string literal that opens at `b[i]`: its characters and the index
/// just past its closing quote. The unescaped bytes must be valid UTF-8.
pub open spec fn string_at(b: Seq<u8>, len: int, i: int) -> Option<(Seq<char>, int)> {
    if !(0 <= i < len && len <= b.len() && b[i] == 34u8) {
        None
    } else {
        match closing_quote(b, len, i + 1) {
            None => None,
            Some(end) => match unescape(b, i + 1, end) {
                Some(bytes) => if vstd::utf8::valid_utf8(bytes) {
                    Some((vstd::utf8::decode_utf8(bytes), end + 1))
                } else {
                    None
                },
                None => None,
            },
        }
    }
}

/// Bytes that a number token may hold.
pub open spec fn is_number_byte(c: u8) -> bool {
    is_digit(c) || c == 43u8 || c == 45u8 || c == 101u8 || c == 69u8 || c == 46u8
}

/// End of the number token that starts at `i`: at most `MAX_NUMBER_TOKEN`
/// bytes that may stand in a number.
pub open spec fn token_end(b: Seq<u8>, len: int, i: int, k: int) -> int
    decreases len - k,
{
    if i <= k < len && k < b.len() && k - i < MAX_NUMBER_TOKEN && is_number_byte(b[k]) {
        token_end(b, len, i, k + 1)
    } else {
        k
    }
}

pub open spec fn number_at(b: Seq<u8>, len: int, i: int) -> Option<(NumberView, int)> {
    let k = token_end(b, len, i, i);
    match token_number(b.subrange(i, k)) {
        Some(n) => Some((n, k)),
        None => None,
    }
}

/// `true` as the parser builds it: its integer view is 1.
pub open spec fn parsed_true() -> Node {
    Node { valueint: 1, ..blank(JsonKind::True) }
}

/// What parsing the value at `b[pos..]` gives, at nesting depth `d`: the value
/// and the index just past it, or the index at which parsing stopped.
pub open spec fn value_at(b: Seq<u8>, len: int, pos: int, d: int) -> Result<(Node, int), int>
    decreases len - pos, 2int,
{
    if !(0 <= pos <= len && len <= b.len()) {
        Err(pos)
    } else if word_at(b, len, pos, seq![110u8, 117u8, 108u8, 108u8]) {
        Ok((blank(JsonKind::Null), pos + 4))
    } else if word_at(b, len, pos, seq![102u8, 97u8, 108u8, 115u8, 101u8]) {
        Ok((blank(JsonKind::False), pos + 5))
    } else if word_at(b, len, pos, seq![116u8, 114u8, 117u8, 101u8]) {
        Ok((parsed_true(), pos + 4))
    } else if pos < len && b[pos] == 34u8 {
        match string_at(b, len, pos) {
            Some((s, e)) => Ok((with_text(JsonKind::String, s, false), e)),
            None => Err(pos),
        }
    } else if pos < len && (b[pos] == 45u8 || is_digit(b[pos])) {
        match number_at(b, len, pos) {
            Some((n, e)) => Ok((with_number(n), e)),
            None => Err(pos),
        }
    } else if pos < len && b[pos] == 91u8 {
        array_at(b, len, pos, d)
    } else if pos < len && b[pos] == 123u8 {
        object_at(b, len, pos, d)
    } else {
        Err(pos)
    }
}

/// The array that opens at `b[i]`.
pub open spec fn array_at(b: Seq<u8>, len: int, i: int, d: int) -> Result<(Node, int), int>
    decreases len - i, 1int,
{
    if !(0 <= i < len && len <= b.len() && b[i] == 91u8) || d >= CJSON_NESTING_LIMIT {
        Err(i)
    } else {
        let s = ws_end(b, len, i + 1);
        if s < len && s < b.len() && b[s] == 93u8 {
            Ok((with_children(JsonKind::Array, Seq::empty(), false), s + 1))
        } else {
            match elements_at(b, len, i, d + 1) {
                Ok((vs, c)) => Ok((with_children(JsonKind::Array, vs, false), c + 1)),
                Err(x) => Err(x),
            }
        }
    }
}

/// The elements after the `[` or `,` at `b[p]`, up to the closing `]`, and
/// the index of that `]`.
pub open spec fn elements_at(b: Seq<u8>, len: int, p: int, d: int) -> Result<(Seq<Node>, int), int>
    decreases len - p, 0int,
{
    let s = ws_end(b, len, p + 1);
    if !(0 <= p < s <= len && len <= b.len()) {
        Err(s)
    } else {
        match value_at(b, len, s, d) {
            Err(x) => Err(x),
            Ok((v, e)) => {
                let t = ws_end(b, len, e);
                if 0 <= t < len && t < b.len() && b[t] == 44u8 {
                    if t <= p {
                        Err(t)
                    } else {
                        match elements_at(b, len, t, d) {
                            Ok((vs, c)) => Ok((seq![v] + vs, c)),
                            Err(x) => Err(x),
                        }
                    }
                } else if 0 <= t < len && t < b.len() && b[t] == 93u8 {
                    Ok((seq![v], t))
                } else {
                    Err(t)
                }
            },
        }
    }
}

/// The object that opens at `b[i]`.
pub open spec fn object_at(b: Seq<u8>, len: int, i: int, d: int) -> Result<(Node, int), int>
    decreases len - i, 1int,
{
    if !(0 <= i < len && len <= b.len() && b[i] == 123u8) || d >= CJSON_NESTING_LIMIT {
        Err(i)
    } else {
        let s = ws_end(b, len, i + 1);
        if s < len && s < b.len() && b[s] == 125u8 {
            Ok((with_children(JsonKind::Object, Seq::empty(), false), s + 1))
        } else {
            match members_at(b, len, i, d + 1) {
                Ok((ms, c)) => Ok((with_children(JsonKind::Object, ms, false), c + 1)),
                Err(x) => Err(x),
            }
        }
    }
}

/// The members after the `{` or `,` at `b[p]`, each a non-empty string key,
/// `:` and a value, up to the closing `}`, and the index of that `}`.
pub open spec fn members_at(b: Seq<u8>, len: int, p: int, d: int) -> Result<(Seq<Node>, int), int>
    decreases len - p, 0int,
{
    let s = ws_end(b, len, p + 1);
    if !(0 <= p < s <= len && len <= b.len()) {
        Err(s)
    } else {
        match string_at(b, len, s) {
            None => Err(s),
            Some((key, e)) => if key.len() == 0 {
                Err(e)
            } else {
                let c = ws_end(b, len, e);
                if !(0 <= c < len && c < b.len() && b[c] == 58u8) {
                    Err(c)
                } else {
                    let s2 = ws_end(b, len, c + 1);
                    if !(p < s2 <= len) {
                        Err(s2)
                    } else {
                        match value_at(b, len, s2, d) {
                            Err(x) => Err(x),
                            Ok((v, e2)) => {
                                let t = ws_end(b, len, e2);
                                let m = keyed(v, key, false);
                                if 0 <= t < len && t < b.len() && b[t] == 44u8 {
                                    if t <= p {
                                        Err(t)
                                    } else {
                                        match members_at(b, len, t, d) {
                                            Ok((ms, c2)) => Ok((seq![m] + ms, c2)),
                                            Err(x) => Err(x),
                                        }
                                    }
                                } else if 0 <= t < len && t < b.len() && b[t] == 125u8 {
                                    Ok((seq![m], t))
                                } else {
                                    Err(t)
                                }
                            },
                        }
                    }
                }
            },
        }
    }
}

/// The state of a parse: the input bytes, of which the first `length` may be
/// read, the current position and the current nesting depth.
#[derive(Debug)]
pub struct ParseBuffer {
    pub content: Vec<u8>,
    pub offset: usize,
    pub depth: usize,
    pub length: usize,
}

impl ParseBuffer {
    pub open spec fn wf(&self) -> bool {
        self.length <= self.content@.len() && self.offset <= self.length
    }

    /// Whether the byte `index` places past the position lies outside the input.
    pub fn cannot_access_at_index(&self, index: usize) -> (r: bool)
        requires
            self.wf(),
        ensures
            r == (self.offset + index >= self.length),
    {
        index >= self.length - self.offset
    }

    /// Whether the byte `index` places past the position lies inside the input.
    pub fn can_access_at_index(&self, index: usize) -> (r: bool)
        requires
            self.wf(),
        ensures
            r == (self.offset + index < self.length),
    {
        index < self.length - self.offset
    }

    /// The input from the position on.
    pub fn buffer_at_offset(&self) -> (r: Vec<u8>)
        requires
            self.wf(),
        ensures
            r@ == self.content@.subrange(self.offset as int, self.length as int),
    {
        let mut r: Vec<u8> = Vec::new();
        let mut i = self.offset;
        while i < self.length
            invariant
                self.wf(),
                self.offset <= i <= self.length,
                r@ == self.content@.subrange(self.offset as int, i as int),
            decreases self.length - i,
        {
            r.push(self.content[i]);
            i = i + 1;
            assert(r@ =~= self.content@.subrange(self.offset as int, i as int));
        }
        r
    }

    /// Whether `length` more bytes can be read from the position.
    pub fn can_read(&self, length: usize) -> (r: bool)
        requires
            self.wf(),
        ensures
            r == (self.offset + length <= self.length),
    {
        length <= self.length - self.offset
    }

    /// Moves the position past spaces, tabs, line feeds and carriage returns.
    pub fn skip_whitespace(&mut self)
        requires
            old(self).wf(),
        ensures
            final(self).wf(),
            final(self).content == old(self).content,
            final(self).length == old(self).length,
            final(self).depth == old(self).depth,
            final(self).offset == ws_end(old(self).content@, old(self).length as int, old(self).offset as int),
    {
        while self.offset < self.length && (self.content[self.offset] == 32u8 || self.content[self.offset] == 9u8
            || self.content[self.offset] == 10u8 || self.content[self.offset] == 13u8)
            invariant
                self.wf(),
                self.content == old(self).content,
                self.length == old(self).length,
                self.depth == old(self).depth,
                ws_end(self.content@, self.length as int, old(self).offset as int) == ws_end(
                    self.content@,
                    self.length as int,
                    self.offset as int,
                ),
            decreases self.length - self.offset,
        {
            self.offset = self.offset + 1;
        }
    }
}

/// How a parse step left the buffer: unchanged but for the position, which
/// is past the value on success and where parsing stopped on failure.
pub open spec fn parsed(old_b: ParseBuffer, new_b: ParseBuffer, res: Result<(Node, int), int>, r: Option<CJSON>) -> bool {
    &&& new_b.wf()
    &&& new_b.content == old_b.content
    &&& new_b.length == old_b.length
    &&& new_b.depth == old_b.depth
    &&& match res {
        Ok((v, e)) => r is Some && r->0@ == v && new_b.offset == e,
        Err(x) => r is None && new_b.offset == x,
    }
}

fn hex_digit_value(c: u8) -> (r: Option<u32>)
    ensures
        r == hex_value(c),
{
    if 48 <= c && c <= 57 {
        Some((c - 48) as u32)
    } else if 65 <= c && c <= 70 {
        Some((c - 55) as u32)
    } else if 97 <= c && c <= 102 {
        Some((c - 87) as u32)
    } else {
        None
    }
}

fn hex4_at(b: &[u8], i: usize) -> (r: Option<u32>)
    requires
        i + 4 <= b@.len(),
    ensures
        r == hex4(b@, i as int),
{
    let a = hex_digit_value(b[i]);
    let c = hex_digit_value(b[i + 1]);
    let d = hex_digit_value(b[i + 2]);
    let e = hex_digit_value(b[i + 3]);
    match (a, c, d, e) {
        (Some(a), Some(c), Some(d), Some(e)) => Some(a * 4096 + c * 256 + d * 16 + e),
        _ => None,
    }
}

/// The value of the four hex digits that open `input`; `None` where there
/// are fewer than four bytes or one of them is no hex digit.
pub fn parse_hex4(input: &[u8]) -> (r: Option<u32>)
    ensures
        input@.len() < 4 ==> r is None,
        input@.len() >= 4 ==> r == hex4(input@, 0),
{
    if input.len() < 4 {
        return None;
    }
    hex4_at(input, 0)
}

fn push_utf8(cp: u32, out: &mut Vec<u8>)
    requires
        cp <= 0x10FFFF,
    ensures
        final(out)@ == old(out)@ + utf8_of(cp),
{
    if cp < 0x80 {
        out.push(cp as u8);
    } else if cp < 0x800 {
        out.push((0xC0 + cp / 64) as u8);
        out.push((0x80 + cp % 64) as u8);
    } else if cp < 0x10000 {
        out.push((0xE0 + cp / 4096) as u8);
        out.push((0x80 + (cp / 64) % 64) as u8);
        out.push((0x80 + cp % 64) as u8);
    } else {
        out.push((0xF0 + cp / 262144) as u8);
        out.push((0x80 + (cp / 4096) % 64) as u8);
        out.push((0x80 + (cp / 64) % 64) as u8);
        out.push((0x80 + cp % 64) as u8);
    }
    assert(out@ =~= old(out)@ + utf8_of(cp));
}

fn utf16_decode(b: &[u8], p: usize, end: usize, out: &mut Vec<u8>) -> (r: Option<usize>)
    requires
        p <= end <= b@.len(),
    ensures
        match utf16_at(b@, p as int, end as int) {
            Some((bytes, n)) => r == Some(n as usize) && final(out)@ == old(out)@ + bytes,
            None => r is None,
        },
{
    if end - p < 6 {
        return None;
    }
    let first = match hex4_at(b, p + 2) {
        Some(u) => u,
        None => return None,
    };
    if 0xDC00 <= first && first <= 0xDFFF {
        return None;
    }
    if 0xD800 <= first && first <= 0xDBFF {
        if end - p < 12 || b[p + 6] != 92u8 || b[p + 7] != 117u8 {
            return None;
        }
        let second = match hex4_at(b, p + 8) {
            Some(u) => u,
            None => return None,
        };
        if !(0xDC00 <= second && second <= 0xDFFF) {
            return None;
        }
        let cp = 0x10000 + (first - 0xD800) * 0x400 + (second - 0xDC00);
        push_utf8(cp, out);
        Some(12)
    } else {
        push_utf8(first, out);
        Some(6)
    }
}

/// Decodes the `\uXXXX` escape (or surrogate pair) that opens
/// `input_pointer`, where the string literal ends at `input_end`, adds its
/// UTF-8 bytes to `output_pointer` and returns how many input bytes it took.
/// A lone or unmatched surrogate gives `None`.
pub fn utf16_literal_to_utf8(input_pointer: &[u8], input_end: usize, output_pointer: &mut Vec<u8>) -> (r: Option<usize>)
    requires
        input_end <= input_pointer@.len(),
    ensures
        match utf16_at(input_pointer@, 0, input_end as int) {
            Some((bytes, n)) => r == Some(n as usize) && final(output_pointer)@ == old(output_pointer)@ + bytes,
            None => r is None,
        },
{
    utf16_decode(input_pointer, 0, input_end, output_pointer)
}

fn find_closing_quote(b: &Vec<u8>, len: usize, start: usize) -> (r: Option<usize>)
    requires
        len <= b@.len(),
        start <= len,
    ensures
        r matches Some(e) ==> closing_quote(b@, len as int, start as int) == Some(e as int) && start <= e < len,
        r is None ==> closing_quote(b@, len as int, start as int) is None,
{
    let mut p = start;
    while p < len
        invariant
            len <= b@.len(),
            start <= p,
            closing_quote(b@, len as int, start as int) == closing_quote(b@, len as int, p as int),
        decreases len - p,
    {
        if b[p] == 34u8 {
            return Some(p);
        }
        if b[p] == 92u8 {
            if p + 1 >= len {
                return None;
            }
            p = p + 2;
        } else {
            p = p + 1;
        }
    }
    None
}

pub open spec fn prepend_bytes(done: Seq<u8>, rest: Option<Seq<u8>>) -> Option<Seq<u8>> {
    match rest {
        Some(r) => Some(done + r),
        None => None,
    }
}

fn escaped_byte(c: u8) -> (r: Option<u8>)
    ensures
        r == simple_escape(c),
{
    if c == 98u8 {
        Some(8u8)
    } else if c == 102u8 {
        Some(12u8)
    } else if c == 110u8 {
        Some(10u8)
    } else if c == 114u8 {
        Some(13u8)
    } else if c == 116u8 {
        Some(9u8)
    } else if c == 34u8 || c == 92u8 || c == 47u8 {
        Some(c)
    } else {
        None
    }
}

#[verifier::rlimit(100)]
#[verifier::spinoff_prover]
fn unescape_range(b: &Vec<u8>, start: usize, end: usize) -> (r: Option<Vec<u8>>)
    requires
        start <= end <= b@.len(),
    ensures
        r matches Some(v) ==> unescape(b@, start as int, end as int) == Some(v@),
        r is None ==> unescape(b@, start as int, end as int) is None,
{
    let mut out: Vec<u8> = Vec::new();
    let mut p = start;
    while p < end
        invariant
            start <= p <= end <= b@.len(),
            unescape(b@, start as int, end as int) == prepend_bytes(out@, unescape(b@, p as int, end as int)),
        decreases end - p,
    {
        let ghost before = out@;
        if b[p] != 92u8 {
            out.push(b[p]);
            proof {
                assert(out@ =~= before + seq![b@[p as int]]);
                match unescape(b@, p as int + 1, end as int) {
                    Some(rest) => {
                        assert(before + (seq![b@[p as int]] + rest) =~= out@ + rest);
                    },
                    None => {},
                }
            }
            p = p + 1;
        } else if p + 1 >= end {
            return None;
        } else if b[p + 1] == 117u8 {
            match utf16_decode(b.as_slice(), p, end, &mut out) {
                Some(n) => {
                    proof {
                        let (bytes, _) = utf16_at(b@, p as int, end as int)->0;
                        match unescape(b@, p as int + n, end as int) {
                            Some(rest) => {
                                assert(before + (bytes + rest) =~= out@ + rest);
                            },
                            None => {},
                        }
                    }
                    p = p + n;
                },
                None => return None,
            }
        } else {
            let e = match escaped_byte(b[p + 1]) {
                Some(e) => e,
                None => return None,
            };
            out.push(e);
            proof {
                assert(out@ =~= before + seq![e]);
                match unescape(b@, p as int + 2, end as int) {
                    Some(rest) => {
                        assert(before + (seq![e] + rest) =~= out@ + rest);
                    },
                    None => {},
                }
            }
            p = p + 2;
        }
    }
    proof {
        assert(out@ + Seq::<u8>::empty() =~= out@);
    }
    Some(out)
}

/// Parses the string literal at the position: on success the position moves
/// past its closing quote; on failure it stays.
pub fn parse_string(input_buffer: &mut ParseBuffer) -> (r: Option<String>)
    requires
        old(input_buffer).wf(),
    ensures
        final(input_buffer).wf(),
        final(input_buffer).content == old(input_buffer).content,
        final(input_buffer).length == old(input_buffer).length,
        final(input_buffer).depth == old(input_buffer).depth,
        match string_at(old(input_buffer).content@, old(input_buffer).length as int, old(input_buffer).offset as int) {
            Some((s, e)) => r matches Some(t) && t@ == s && final(input_buffer).offset == e,
            None => r is None && final(input_buffer).offset == old(input_buffer).offset,
        },
{
    let i = input_buffer.offset;
    let len = input_buffer.length;
    if !(i < len && input_buffer.content[i] == 34u8) {
        return None;
    }
    let end = match find_closing_quote(&input_buffer.content, len, i + 1) {
        Some(e) => e,
        None => return None,
    };
    let bytes = match unescape_range(&input_buffer.content, i + 1, end) {
        Some(v) => v,
        None => return None,
    };
    match string_from_utf8(bytes) {
        Some(s) => {
            input_buffer.offset = end + 1;
            Some(s)
        },
        None => None,
    }
}

/// Parses the number token at the position: on success the position moves
/// past it; on failure it stays.
pub fn parse_number(input_buffer: &mut ParseBuffer) -> (r: Option<JsonNumber>)
    requires
        old(input_buffer).wf(),
    ensures
        final(input_buffer).wf(),
        final(input_buffer).content == old(input_buffer).content,
        final(input_buffer).length == old(input_buffer).length,
        final(input_buffer).depth == old(input_buffer).depth,
        match number_at(old(input_buffer).content@, old(input_buffer).length as int, old(input_buffer).offset as int) {
            Some((n, e)) => r matches Some(m) && m@ == n && final(input_buffer).offset == e,
            None => r is None && final(input_buffer).offset == old(input_buffer).offset,
        },
{
    let i = input_buffer.offset;
    let len = input_buffer.length;
    let ghost b = input_buffer.content@;
    let mut token: Vec<u8> = Vec::new();
    let mut k = i;
    let decimal_point = get_decimal_point();
    while k < len && k - i < MAX_NUMBER_TOKEN && (is_number_char(input_buffer.content[k]))
        invariant
            input_buffer.wf(),
            b == input_buffer.content@,
            len == input_buffer.length,
            i <= k <= len,
            k - i <= MAX_NUMBER_TOKEN,
            token_end(b, len as int, i as int, i as int) == token_end(b, len as int, i as int, k as int),
            token@ == b.subrange(i as int, k as int),
            decimal_point == '.',
        decreases len - k,
    {
        let c = input_buffer.content[k];
        assert(('.' as u8) == 46u8);
        token.push(if c == 46u8 { decimal_point as u8 } else { c });
        k = k + 1;
        assert(token@ =~= b.subrange(i as int, k as int));
    }
    match JsonNumber::from_token(token.as_slice()) {
        Some(n) => {
            input_buffer.offset = k;
            Some(n)
        },
        None => None,
    }
}

/// The decimal point that number tokens are read with.
fn get_decimal_point() -> (r: char)
    ensures
        r == '.',
{
    '.'
}

fn is_number_char(c: u8) -> (r: bool)
    ensures
        r == is_number_byte(c),
{
    (48u8 <= c && c <= 57u8) || c == 43u8 || c == 45u8 || c == 101u8 || c == 69u8 || c == 46u8
}

fn word_here(buf: &ParseBuffer, w: &Vec<u8>) -> (r: bool)
    requires
        buf.wf(),
    ensures
        r == word_at(buf.content@, buf.length as int, buf.offset as int, w@),
{
    if w.len() > buf.length - buf.offset {
        return false;
    }
    let mut k: usize = 0;
    while k < w.len()
        invariant
            buf.wf(),
            w@.len() <= buf.length - buf.offset,
            k <= w@.len(),
            forall|j: int| 0 <= j < k ==> buf.content@[buf.offset + j] == #[trigger] w@[j],
        decreases w@.len() - k,
    {
        if buf.content[buf.offset + k] != w[k] {
            proof {
                let sub = buf.content@.subrange(buf.offset as int, buf.offset + w@.len());
                assert(sub[k as int] != w@[k as int]);
            }
            return false;
        }
        k = k + 1;
    }
    assert(buf.content@.subrange(buf.offset as int, buf.offset + w@.len()) =~= w@);
    true
}

pub open spec fn prepend_nodes(done: Seq<Node>, rest: Result<(Seq<Node>, int), int>) -> Result<(Seq<Node>, int), int> {
    match rest {
        Ok((vs, c)) => Ok((done + vs, c)),
        Err(x) => Err(x),
    }
}

/// Parses the value at the position.
pub fn parse_value(input_buffer: &mut ParseBuffer) -> (r: Option<CJSON>)
    requires
        old(input_buffer).wf(),
    ensures
        parsed(
            *old(input_buffer),
            *final(input_buffer),
            value_at(old(input_buffer).content@, old(input_buffer).length as int, old(input_buffer).offset as int, old(input_buffer).depth as int),
            r,
        ),
    decreases old(input_buffer).length - old(input_buffer).offset, 2int,
{
    let pos = input_buffer.offset;
    let len = input_buffer.length;
    if word_here(input_buffer, &vec![110u8, 117u8, 108u8, 108u8]) {
        input_buffer.offset = pos + 4;
        return Some(cjson_create_null());
    }
    if word_here(input_buffer, &vec![102u8, 97u8, 108u8, 115u8, 101u8]) {
        input_buffer.offset = pos + 5;
        return Some(cjson_create_false());
    }
    if word_here(input_buffer, &vec![116u8, 114u8, 117u8, 101u8]) {
        input_buffer.offset = pos + 4;
        let mut t = cjson_create_true();
        t.valueint = 1;
        proof {
            lemma_children(t);
            assert(t@.children =~= Seq::<Node>::empty());
        }
        return Some(t);
    }
    if pos < len && input_buffer.content[pos] == 34u8 {
        return match parse_string(input_buffer) {
            Some(s) => {
                let mut n = cjson_create_null();
                n.item_type = JsonKind::String;
                n.valuestring = Some(s);
                proof {
                    lemma_children(n);
                    assert(n@.children =~= Seq::<Node>::empty());
                }
                Some(n)
            },
            None => None,
        };
    }
    if pos < len && (input_buffer.content[pos] == 45u8 || (48u8 <= input_buffer.content[pos]
        && input_buffer.content[pos] <= 57u8)) {
        return match parse_number(input_buffer) {
            Some(num) => Some(cjson_create_number(num)),
            None => None,
        };
    }
    if pos < len && input_buffer.content[pos] == 91u8 {
        return parse_array(input_buffer);
    }
    if pos < len && input_buffer.content[pos] == 123u8 {
        return parse_object(input_buffer);
    }
    None
}

proof fn lemma_ws_end_bounds(b: Seq<u8>, len: int, i: int)
    requires
        0 <= i <= len <= b.len(),
    ensures
        i <= ws_end(b, len, i) <= len,
    decreases len - i,
{
    if i < len && is_ws(b[i]) {
        lemma_ws_end_bounds(b, len, i + 1);
    }
}


/// One element after the `[` or `,` at `b[p]`: the value, the index of the
/// byte after it, and whether a `,` follows (else a `]`).
pub open spec fn element_step(b: Seq<u8>, len: int, p: int, d: int) -> Result<(Node, int, bool), int> {
    let s = ws_end(b, len, p + 1);
    if !(0 <= p < s <= len && len <= b.len()) {
        Err(s)
    } else {
        match value_at(b, len, s, d) {
            Err(x) => Err(x),
            Ok((v, e)) => {
                let t = ws_end(b, len, e);
                if 0 <= t < len && t < b.len() && b[t] == 44u8 {
                    if t <= p {
                        Err(t)
                    } else {
                        Ok((v, t, true))
                    }
                } else if 0 <= t < len && t < b.len() && b[t] == 93u8 {
                    Ok((v, t, false))
                } else {
                    Err(t)
                }
            },
        }
    }
}

/// One member after the `{` or `,` at `b[p]`, in the manner of `element_step`.
pub open spec fn member_step(b: Seq<u8>, len: int, p: int, d: int) -> Result<(Node, int, bool), int> {
    let s = ws_end(b, len, p + 1);
    if !(0 <= p < s <= len && len <= b.len()) {
        Err(s)
    } else {
        match string_at(b, len, s) {
            None => Err(s),
            Some((key, e)) => if key.len() == 0 {
                Err(e)
            } else {
                let c = ws_end(b, len, e);
                if !(0 <= c < len && c < b.len() && b[c] == 58u8) {
                    Err(c)
                } else {
                    let s2 = ws_end(b, len, c + 1);
                    if !(p < s2 <= len) {
                        Err(s2)
                    } else {
                        match value_at(b, len, s2, d) {
                            Err(x) => Err(x),
                            Ok((v, e2)) => {
                                let t = ws_end(b, len, e2);
                                let m = keyed(v, key, false);
                                if 0 <= t < len && t < b.len() && b[t] == 44u8 {
                                    if t <= p {
                                        Err(t)
                                    } else {
                                        Ok((m, t, true))
                                    }
                                } else if 0 <= t < len && t < b.len() && b[t] == 125u8 {
                                    Ok((m, t, false))
                                } else {
                                    Err(t)
                                }
                            },
                        }
                    }
                }
            },
        }
    }
}

/// How the items after `p` follow from one step and from the items after it.
pub open spec fn items_after(step: Result<(Node, int, bool), int>, rest: Result<(Seq<Node>, int), int>) -> Result<(Seq<Node>, int), int> {
    match step {
        Err(x) => Err(x),
        Ok((v, t, true)) => prepend_nodes(seq![v], rest),
        Ok((v, t, false)) => Ok((seq![v], t)),
    }
}

proof fn lemma_elements_unfold(b: Seq<u8>, len: int, p: int, d: int)
    ensures
        elements_at(b, len, p, d) == items_after(
            element_step(b, len, p, d),
            match element_step(b, len, p, d) {
                Ok((v, t, true)) => elements_at(b, len, t, d),
                _ => Err(0),
            },
        ),
{
}

proof fn lemma_members_unfold(b: Seq<u8>, len: int, p: int, d: int)
    ensures
        members_at(b, len, p, d) == items_after(
            member_step(b, len, p, d),
            match member_step(b, len, p, d) {
                Ok((v, t, true)) => members_at(b, len, t, d),
                _ => Err(0),
            },
        ),
{
}

/// Parses one element after the `[` or `,` at `p`.
fn parse_element(input_buffer: &mut ParseBuffer, p: usize) -> (r: Option<(CJSON, usize, bool)>)
    requires
        old(input_buffer).wf(),
        p < old(input_buffer).length,
    ensures
        final(input_buffer).wf(),
        final(input_buffer).content == old(input_buffer).content,
        final(input_buffer).length == old(input_buffer).length,
        final(input_buffer).depth == old(input_buffer).depth,
        match element_step(old(input_buffer).content@, old(input_buffer).length as int, p as int, old(input_buffer).depth as int) {
            Ok((v, t, more)) => r matches Some((n, t2, m2)) && n@ == v && t2 == t && m2 == more && final(input_buffer).offset == t,
            Err(x) => r is None && final(input_buffer).offset == x,
        },
    decreases old(input_buffer).length - p, 0int,
{
    let len = input_buffer.length;
    input_buffer.offset = p + 1;
    input_buffer.skip_whitespace();
    proof {
        lemma_ws_end_bounds(input_buffer.content@, len as int, p as int + 1);
    }
    let v = match parse_value(input_buffer) {
        Some(v) => v,
        None => return None,
    };
    input_buffer.skip_whitespace();
    let t = input_buffer.offset;
    if t < len && input_buffer.content[t] == 44u8 {
        if t <= p {
            return None;
        }
        Some((v, t, true))
    } else if t < len && input_buffer.content[t] == 93u8 {
        Some((v, t, false))
    } else {
        None
    }
}

/// Parses one member after the `{` or `,` at `p`.
fn parse_member(input_buffer: &mut ParseBuffer, p: usize) -> (r: Option<(CJSON, usize, bool)>)
    requires
        old(input_buffer).wf(),
        p < old(input_buffer).length,
    ensures
        final(input_buffer).wf(),
        final(input_buffer).content == old(input_buffer).content,
        final(input_buffer).length == old(input_buffer).length,
        final(input_buffer).depth == old(input_buffer).depth,
        match member_step(old(input_buffer).content@, old(input_buffer).length as int, p as int, old(input_buffer).depth as int) {
            Ok((v, t, more)) => r matches Some((n, t2, m2)) && n@ == v && t2 == t && m2 == more && final(input_buffer).offset == t,
            Err(x) => r is None && final(input_buffer).offset == x,
        },
    decreases old(input_buffer).length - p, 0int,
{
    let len = input_buffer.length;
    input_buffer.offset = p + 1;
    input_buffer.skip_whitespace();
    proof {
        lemma_ws_end_bounds(input_buffer.content@, len as int, p as int + 1);
    }
    let key = match parse_string(input_buffer) {
        Some(k) => k,
        None => return None,
    };
    if key.as_str().is_empty() {
        return None;
    }
    input_buffer.skip_whitespace();
    let c = input_buffer.offset;
    if !(c < len && input_buffer.content[c] == 58u8) {
        return None;
    }
    input_buffer.offset = c + 1;
    input_buffer.skip_whitespace();
    if input_buffer.offset <= p {
        return None;
    }
    let mut v = match parse_value(input_buffer) {
        Some(v) => v,
        None => return None,
    };
    input_buffer.skip_whitespace();
    let t = input_buffer.offset;
    let ghost v0 = v;
    let ghost kv = key@;
    v.string = Some(key);
    v.key_is_const = false;
    proof {
        lemma_children(v);
        lemma_children(v0);
        assert(v@.children =~= v0@.children);
        assert(v@ == keyed(v0@, kv, false));
    }
    if t < len && input_buffer.content[t] == 44u8 {
        if t <= p {
            return None;
        }
        Some((v, t, true))
    } else if t < len && input_buffer.content[t] == 125u8 {
        Some((v, t, false))
    } else {
        None
    }
}

/// Parses the array that opens at the position.
#[verifier::rlimit(100)]
#[verifier::spinoff_prover]
pub fn parse_array(input_buffer: &mut ParseBuffer) -> (r: Option<CJSON>)
    requires
        old(input_buffer).wf(),
    ensures
        parsed(
            *old(input_buffer),
            *final(input_buffer),
            array_at(old(input_buffer).content@, old(input_buffer).length as int, old(input_buffer).offset as int, old(input_buffer).depth as int),
            r,
        ),
    decreases old(input_buffer).length - old(input_buffer).offset, 1int,
{
    let i = input_buffer.offset;
    let len = input_buffer.length;
    let ghost b = input_buffer.content@;
    let ghost d = input_buffer.depth as int;
    if !(i < len && input_buffer.content[i] == 91u8) || input_buffer.depth >= CJSON_NESTING_LIMIT {
        return None;
    }
    input_buffer.offset = i + 1;
    input_buffer.skip_whitespace();
    let s = input_buffer.offset;
    if s < len && input_buffer.content[s] == 93u8 {
        input_buffer.offset = s + 1;
        let r = cjson_create_array();
        proof {
            assert(Seq::<Node>::empty() =~= r@.children);
        }
        return Some(r);
    }
    input_buffer.depth = input_buffer.depth + 1;
    let mut children: Vec<CJSON> = Vec::new();
    let ghost mut acc: Seq<Node> = Seq::empty();
    let mut p = i;
    let mut closer: usize = i;
    proof {
        match elements_at(b, len as int, i as int, d + 1) {
            Ok((vs, c)) => {
                assert(acc + vs =~= vs);
            },
            Err(x) => {},
        }
    }
    loop
        invariant_except_break
            elements_at(b, len as int, i as int, d + 1) == prepend_nodes(acc, elements_at(b, len as int, p as int, d + 1)),
            i <= p < len,
        invariant
            input_buffer.wf(),
            input_buffer.content == old(input_buffer).content,
            input_buffer.content@ == b,
            input_buffer.length == len,
            input_buffer.depth == d + 1,
            d == old(input_buffer).depth,
            d < CJSON_NESTING_LIMIT,
            i == old(input_buffer).offset,
            len == old(input_buffer).length,
            len <= b.len(),
            children@.len() == acc.len(),
            forall|k: int| 0 <= k < acc.len() ==> #[trigger] children@[k]@ == acc[k],
            array_at(b, len as int, i as int, d) == match elements_at(b, len as int, i as int, d + 1) {
                Ok((vs, c)) => Ok((with_children(JsonKind::Array, vs, false), c + 1)),
                Err(x) => Err(x),
            },
        ensures
            closer < len,
            elements_at(b, len as int, i as int, d + 1) == Ok::<(Seq<Node>, int), int>((acc, closer as int)),
        decreases len - p,
    {
        proof {
            lemma_elements_unfold(b, len as int, p as int, d + 1);
        }
        let (v, t, more) = match parse_element(input_buffer, p) {
            Some(x) => x,
            None => {
                input_buffer.depth = input_buffer.depth - 1;
                return None;
            },
        };
        let ghost vn = v@;
        let ghost before = acc;
        children.push(v);
        proof {
            acc = acc.push(vn);
        }
        if more {
            proof {
                match elements_at(b, len as int, t as int, d + 1) {
                    Ok((vs, c)) => {
                        assert(before + (seq![vn] + vs) =~= acc + vs);
                    },
                    Err(x) => {},
                }
            }
            p = t;
        } else {
            proof {
                assert(before + seq![vn] =~= acc);
            }
            closer = t;
            break;
        }
    }
    input_buffer.depth = input_buffer.depth - 1;
    input_buffer.offset = closer + 1;
    let mut r = cjson_create_array();
    r.child = children;
    proof {
        lemma_children(r);
        assert(r@.children =~= acc);
    }
    Some(r)
}

/// Parses the object that opens at the position.
#[verifier::rlimit(100)]
#[verifier::spinoff_prover]
pub fn parse_object(input_buffer: &mut ParseBuffer) -> (r: Option<CJSON>)
    requires
        old(input_buffer).wf(),
    ensures
        parsed(
            *old(input_buffer),
            *final(input_buffer),
            object_at(old(input_buffer).content@, old(input_buffer).length as int, old(input_buffer).offset as int, old(input_buffer).depth as int),
            r,
        ),
    decreases old(input_buffer).length - old(input_buffer).offset, 1int,
{
    let i = input_buffer.offset;
    let len = input_buffer.length;
    let ghost b = input_buffer.content@;
    let ghost d = input_buffer.depth as int;
    if !(i < len && input_buffer.content[i] == 123u8) || input_buffer.depth >= CJSON_NESTING_LIMIT {
        return None;
    }
    input_buffer.offset = i + 1;
    input_buffer.skip_whitespace();
    let s = input_buffer.offset;
    if s < len && input_buffer.content[s] == 125u8 {
        input_buffer.offset = s + 1;
        let r = cjson_create_object();
        proof {
            assert(Seq::<Node>::empty() =~= r@.children);
        }
        return Some(r);
    }
    input_buffer.depth = input_buffer.depth + 1;
    let mut children: Vec<CJSON> = Vec::new();
    let ghost mut acc: Seq<Node> = Seq::empty();
    let mut p = i;
    let mut closer: usize = i;
    proof {
        match members_at(b, len as int, i as int, d + 1) {
            Ok((vs, c)) => {
                assert(acc + vs =~= vs);
            },
            Err(x) => {},
        }
    }
    loop
        invariant_except_break
            members_at(b, len as int, i as int, d + 1) == prepend_nodes(acc, members_at(b, len as int, p as int, d + 1)),
            i <= p < len,
        invariant
            input_buffer.wf(),
            input_buffer.content == old(input_buffer).content,
            input_buffer.content@ == b,
            input_buffer.length == len,
            input_buffer.depth == d + 1,
            d == old(input_buffer).depth,
            d < CJSON_NESTING_LIMIT,
            i == old(input_buffer).offset,
            len == old(input_buffer).length,
            len <= b.len(),
            children@.len() == acc.len(),
            forall|k: int| 0 <= k < acc.len() ==> #[trigger] children@[k]@ == acc[k],
            object_at(b, len as int, i as int, d) == match members_at(b, len as int, i as int, d + 1) {
                Ok((vs, c)) => Ok((with_children(JsonKind::Object, vs, false), c + 1)),
                Err(x) => Err(x),
            },
        ensures
            closer < len,
            members_at(b, len as int, i as int, d + 1) == Ok::<(Seq<Node>, int), int>((acc, closer as int)),
        decreases len - p,
    {
        proof {
            lemma_members_unfold(b, len as int, p as int, d + 1);
        }
        let (v, t, more) = match parse_member(input_buffer, p) {
            Some(x) => x,
            None => {
                input_buffer.depth = input_buffer.depth - 1;
                return None;
            },
        };
        let ghost vn = v@;
        let ghost before = acc;
        children.push(v);
        proof {
            acc = acc.push(vn);
        }
        if more {
            proof {
                match members_at(b, len as int, t as int, d + 1) {
                    Ok((vs, c)) => {
                        assert(before + (seq![vn] + vs) =~= acc + vs);
                    },
                    Err(x) => {},
                }
            }
            p = t;
        } else {
            proof {
                assert(before + seq![vn] =~= acc);
            }
            closer = t;
            break;
        }
    }
    input_buffer.depth = input_buffer.depth - 1;
    input_buffer.offset = closer + 1;
    let mut r = cjson_create_object();
    r.child = children;
    proof {
        lemma_children(r);
        assert(r@.children =~= acc);
    }
    Some(r)
}

/// The byte order mark that may open UTF-8 text.
pub open spec fn bom() -> Seq<u8> {
    seq![0xEFu8, 0xBBu8, 0xBFu8]
}

/// A failure at or past the end of the input is placed on its last byte.
pub open spec fn clamp_position(x: int, len: int) -> int {
    if x < len {
        x
    } else if len > 0 {
        len - 1
    } else {
        0
    }
}

/// Parsing a whole document held in `value`, of which the first
/// `buffer_length` bytes may be read; the text counts as followed by one NUL
/// byte, as a C string is. A byte order mark at the start is skipped, then
/// whitespace, then one value is parsed. With `require_null_terminated`, only
/// whitespace and then that NUL byte may follow the value. Gives the value and
/// the index where parsing ended, or the position of the failure.
pub open spec fn document(value: Seq<u8>, buffer_length: int, require_null_terminated: bool) -> Result<(Node, int), int> {
    let b = value.push(0u8);
    let len = if buffer_length < b.len() {
        buffer_length
    } else {
        b.len() as int
    };
    let start = if word_at(b, len, 0, bom()) {
        3
    } else {
        0
    };
    let s = ws_end(b, len, start);
    match value_at(b, len, s, 0) {
        Err(x) => Err(clamp_position(x, len)),
        Ok((v, e)) => if require_null_terminated {
            let t = ws_end(b, len, e);
            if 0 <= t < len && b[t] == 0u8 {
                Ok((v, t))
            } else {
                Err(clamp_position(t, len))
            }
        } else {
            Ok((v, e))
        },
    }
}

/// Why a parse failed: the input and the position at which parsing stopped.
#[derive(Debug)]
pub struct Error {
    pub json: Option<Vec<u8>>,
    pub position: usize,
}

/// The outcome of parsing `value` as `document` describes it, where the
/// input is not empty and `buffer_length` is not zero.
pub open spec fn parse_outcome(value: Seq<u8>, buffer_length: int, require_null_terminated: bool, r: Result<CJSON, Error>, end: usize) -> bool {
    match document(value, buffer_length, require_null_terminated) {
        Ok((v, e)) => r matches Ok(t) && t@ == v && end == e,
        Err(x) => r matches Err(err) && err.json matches Some(j) && j@ == value && err.position == x && end == x,
    }
}

/// Moves the position past a byte order mark at the start of the input.
/// Refuses an empty input, or a position other than the start.
pub fn skip_utf8_bom(buffer: &mut ParseBuffer) -> (r: bool)
    requires
        old(buffer).wf(),
    ensures
        final(buffer).wf(),
        final(buffer).content == old(buffer).content,
        final(buffer).length == old(buffer).length,
        final(buffer).depth == old(buffer).depth,
        r == (old(buffer).content@.len() > 0 && old(buffer).offset == 0),
        final(buffer).offset == if r && word_at(old(buffer).content@, old(buffer).length as int, 0, bom()) {
            3
        } else {
            old(buffer).offset as int
        },
{
    if buffer.content.len() == 0 || buffer.offset != 0 {
        return false;
    }
    let mark = vec![0xEFu8, 0xBBu8, 0xBFu8];
    assert(mark@ =~= bom());
    if word_here(buffer, &mark) {
        buffer.offset = 3;
    }
    true
}

fn copy_bytes(s: &[u8]) -> (r: Vec<u8>)
    ensures
        r@ == s@,
{
    let mut r: Vec<u8> = Vec::new();
    let mut i: usize = 0;
    while i < s.len()
        invariant
            i <= s@.len(),
            r@ == s@.subrange(0, i as int),
        decreases s@.len() - i,
    {
        r.push(s[i]);
        i = i + 1;
        assert(r@ =~= s@.subrange(0, i as int));
    }
    assert(r@ =~= s@);
    r
}

fn handle_parse_failure(value: &[u8], x: usize, len: usize, return_parse_end: &mut usize) -> (r: Result<CJSON, Error>)
    ensures
        r matches Err(err) && err.json matches Some(j) && j@ == value@ && err.position == clamp_position(x as int, len as int),
        *final(return_parse_end) == clamp_position(x as int, len as int),
{
    let position = if x < len {
        x
    } else if len > 0 {
        len - 1
    } else {
        0
    };
    *return_parse_end = position;
    Err(Error { json: Some(copy_bytes(value)), position })
}

/// Parses the first `buffer_length` bytes of `value` (see `document`). The
/// index where parsing ended, or failed, goes to `return_parse_end`. An empty
/// input or a zero length fails with no input recorded.
pub fn cjson_parse_with_length_opts(
    value: &str,
    buffer_length: usize,
    return_parse_end: &mut usize,
    require_null_terminated: bool,
) -> (r: Result<CJSON, Error>)
    ensures
        (value.spec_bytes().len() == 0 || buffer_length == 0) ==> (r matches Err(e) && e.json is None
            && e.position == 0 && *final(return_parse_end) == *old(return_parse_end)),
        (value.spec_bytes().len() > 0 && buffer_length > 0) ==> parse_outcome(
            value.spec_bytes(),
            buffer_length as int,
            require_null_terminated,
            r,
            *final(return_parse_end),
        ),
{
    let bytes = value.as_bytes();
    if bytes.len() == 0 || buffer_length == 0 {
        return Err(Error { json: None, position: 0 });
    }
    let mut content = copy_bytes(bytes);
    content.push(0u8);
    let len = if buffer_length < content.len() {
        buffer_length
    } else {
        content.len()
    };
    let ghost b = content@;
    assert(b =~= value.spec_bytes().push(0u8));
    let mut buffer = ParseBuffer { content, offset: 0, depth: 0, length: len };
    skip_utf8_bom(&mut buffer);
    buffer.skip_whitespace();
    let item = match parse_value(&mut buffer) {
        Some(item) => item,
        None => return handle_parse_failure(bytes, buffer.offset, len, return_parse_end),
    };
    if require_null_terminated {
        buffer.skip_whitespace();
        if !(buffer.offset < len && buffer.content[buffer.offset] == 0u8) {
            return handle_parse_failure(bytes, buffer.offset, len, return_parse_end);
        }
    }
    *return_parse_end = buffer.offset;
    Ok(item)
}

/// Parses the first `buffer_length` bytes of `value`.
pub fn cjson_parse_with_length(value: &str, buffer_length: usize) -> (r: Result<CJSON, Error>)
    ensures
        (value.spec_bytes().len() == 0 || buffer_length == 0) ==> (r matches Err(e) && e.json is None
            && e.position == 0),
        (value.spec_bytes().len() > 0 && buffer_length > 0) ==> exists|end: usize|
            #[trigger] parse_outcome(value.spec_bytes(), buffer_length as int, false, r, end),
{
    let mut end: usize = 0;
    cjson_parse_with_length_opts(value, buffer_length, &mut end, false)
}

/// Parses `value` together with the NUL byte that ends it.
pub fn cjson_parse_with_opts(value: &str, return_parse_end: &mut usize, require_null_terminated: bool) -> (r: Result<CJSON, Error>)
    requires
        value.spec_bytes().len() < usize::MAX,
    ensures
        value.spec_bytes().len() == 0 ==> (r matches Err(e) && e.json is None && e.position == 0),
        value.spec_bytes().len() > 0 ==> parse_outcome(
            value.spec_bytes(),
            (value.spec_bytes().len() + 1) as int,
            require_null_terminated,
            r,
            *final(return_parse_end),
        ),
{
    let n = value.len();
    if n == 0 {
        return Err(Error { json: None, position: 0 });
    }
    cjson_parse_with_length_opts(value, n + 1, return_parse_end, require_null_terminated)
}

/// Parses `value`.
pub fn cjson_parse(value: &str) -> (r: Result<CJSON, Error>)
    requires
        value.spec_bytes().len() < usize::MAX,
    ensures
        value.spec_bytes().len() == 0 ==> (r matches Err(e) && e.json is None && e.position == 0),
        value.spec_bytes().len() > 0 ==> exists|end: usize|
            #[trigger] parse_outcome(value.spec_bytes(), (value.spec_bytes().len() + 1) as int, false, r, end),
{
    let mut end: usize = 0;
    cjson_parse_with_opts(value, &mut end, false)
}

/// The input from the position of the failure on, as text; `None` where no
/// input was recorded, the position lies past it, or the rest is no valid
/// UTF-8.
pub fn cjson_get_error_ptr(error: &Error) -> (r: Option<String>)
    ensures
        r is Some <==> (error.json matches Some(j) && error.position <= j@.len()
            && vstd::utf8::valid_utf8(j@.subrange(error.position as int, j@.len() as int))),
        r matches Some(s) ==> s@ == vstd::utf8::decode_utf8(
            error.json->0@.subrange(error.position as int, error.json->0@.len() as int),
        ),
{
    match &error.json {
        Some(j) => {
            if error.position > j.len() {
                return None;
            }
            let mut rest: Vec<u8> = Vec::new();
            let mut i = error.position;
            while i < j.len()
                invariant
                    error.position <= i <= j@.len(),
                    rest@ == j@.subrange(error.position as int, i as int),
                decreases j@.len() - i,
            {
                rest.push(j[i]);
                i = i + 1;
                assert(rest@ =~= j@.subrange(error.position as int, i as int));
            }
            string_from_utf8(rest)
        },
        None => None,
    }
}

} // verus!
