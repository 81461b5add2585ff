use vstd::prelude::*;
use crate::parser::{
    utf16_at, hex4, utf8_of, is_high_surrogate, is_low_surrogate, hex_value, closing_quote,
    unescape, prepend_bytes, string_at, value_at, word_at, token_end, is_number_byte, number_at,
    elements_at, members_at, ws_end, is_ws, document, bom, CJSON_NESTING_LIMIT, array_at, object_at, items_after,
};
use vstd::utf8::{encode_utf8, encode_scalar};
use crate::number::{
    NumberView, render_number, int_part, frac_part, skip_zeros, trim_zeros, digits_ok, digit_chars,
    digit_values, digit_run, is_digit, token_number, sign_len, mantissa, MAX_NUMBER_TOKEN,
};
use crate::printer::{
    render, render_elements, render_members, quoted, comma, colon, escape, escape_char, is_control,
    hex_digit, lemma_escape_concat, lemma_elements_prefix, lemma_members_prefix, fits_ceiling,
};
use crate::text::utf8_len;
use crate::tree::{CJSON, Node, JsonKind, blank, appended, keyed, with_text, with_children};

verus! {

/// Two texts that `cjson_print` gave for the same unchanged tree are equal.
pub proof fn law_print_repeatable(item: CJSON, first: Option<String>, second: Option<String>)
    requires
        first is Some <==> render(item@) is Some,
        first matches Some(s) ==> s@ == render(item@)->0,
        second is Some <==> render(item@) is Some,
        second matches Some(s) ==> s@ == render(item@)->0,
    ensures
        first is Some <==> second is Some,
        first matches Some(s) ==> s@ == second->0@,
{
}

/// The ceiling of a preallocated print is exact: a text of `n` bytes fits
/// a ceiling of `n` and not one of `n - 1`.
pub proof fn law_capacity_boundary(v: Node)
    requires
        render(v) is Some,
        utf8_len(render(v)->0) > 0,
    ensures
        fits_ceiling(v, utf8_len(render(v)->0) as int),
        !fits_ceiling(v, utf8_len(render(v)->0) - 1),
{
}

proof fn lemma_elements_same_children(v: Node, w: Node, k: int)
    requires
        v.children == w.children,
    ensures
        render_elements(v, k) == render_elements(w, k),
    decreases k,
{
    if k > 0 && k <= v.children.len() {
        lemma_elements_same_children(v, w, k - 1);
    }
}

proof fn lemma_members_same_children(v: Node, w: Node, k: int)
    requires
        v.children == w.children,
    ensures
        render_members(v, k) == render_members(w, k),
    decreases k,
{
    if k > 0 && k <= v.children.len() {
        lemma_members_same_children(v, w, k - 1);
    }
}

/// A member prints as its value does: the key is written by the object.
pub proof fn lemma_render_keyed(v: Node, key: Seq<char>, constant_key: bool)
    ensures
        render(keyed(v, key, constant_key)) == render(v),
{
    let w = keyed(v, key, constant_key);
    lemma_elements_same_children(w, v, v.children.len() as int);
    lemma_members_same_children(w, v, v.children.len() as int);
}

/// Members print in the order in which they were added: adding `kb` and then
/// `ka` to an empty object prints `{"kb": .., "ka": ..}`, whatever the keys.
pub proof fn law_member_order(kb: Seq<char>, vb: Node, ka: Seq<char>, va: Node)
    requires
        render(vb) is Some,
        render(va) is Some,
    ensures
        render(
            appended(
                appended(blank(JsonKind::Object), keyed(vb, kb, false)),
                keyed(va, ka, false),
            ),
        ) == Some(
            seq!['{'] + quoted(kb) + colon() + render(vb)->0 + comma() + quoted(ka) + colon()
                + render(va)->0 + seq!['}'],
        ),
{
    let o1 = appended(blank(JsonKind::Object), keyed(vb, kb, false));
    let o2 = appended(o1, keyed(va, ka, false));
    lemma_render_keyed(vb, kb, false);
    lemma_render_keyed(va, ka, false);
    assert(o2.children =~= seq![keyed(vb, kb, false), keyed(va, ka, false)]);
    assert(o2.children[0] == keyed(vb, kb, false));
    assert(o2.children[1] == keyed(va, ka, false));
    assert(render_members(o2, 0) == Some(Seq::<char>::empty()));
    let entry_b = quoted(kb) + colon() + render(vb)->0;
    assert(render_members(o2, 1) == Some(entry_b));
    assert(entry_b.len() > 0);
    let inner = entry_b + comma() + quoted(ka) + colon() + render(va)->0;
    assert(render_members(o2, 2) == Some(inner));
    assert(seq!['{'] + inner + seq!['}'] =~= seq!['{'] + quoted(kb) + colon() + render(vb)->0
        + comma() + quoted(ka) + colon() + render(va)->0 + seq!['}']);
}

/// The code point that a high and a low surrogate stand for together.
pub open spec fn surrogate_pair_code(high: u32, low: u32) -> int {
    0x10000 + (high - 0xD800) * 0x400 + (low - 0xDC00)
}

/// A `\uD83D\uDE00`-style escape pair decodes to the one code point it
/// encodes, which lies past the basic plane and takes four UTF-8 bytes.
pub proof fn law_surrogate_pair(b: Seq<u8>, p: int, end: int, high: u32, low: u32)
    requires
        0 <= p,
        p + 12 <= end <= b.len(),
        hex4(b, p + 2) == Some(high),
        is_high_surrogate(high),
        b[p + 6] == 92u8,
        b[p + 7] == 117u8,
        hex4(b, p + 8) == Some(low),
        is_low_surrogate(low),
    ensures
        utf16_at(b, p, end) == Some((utf8_of(surrogate_pair_code(high, low) as u32), 12int)),
        0x10000 <= surrogate_pair_code(high, low) <= 0x10FFFF,
        utf8_of(surrogate_pair_code(high, low) as u32).len() == 4,
{
}

/// A low surrogate that no high surrogate precedes is refused.
pub proof fn law_lone_low_surrogate(b: Seq<u8>, p: int, end: int, low: u32)
    requires
        0 <= p,
        p + 6 <= end <= b.len(),
        hex4(b, p + 2) == Some(low),
        is_low_surrogate(low),
    ensures
        utf16_at(b, p, end) is None,
{
}

proof fn lemma_encode_concat(a: Seq<char>, b: Seq<char>)
    ensures
        encode_utf8(a + b) == encode_utf8(a) + encode_utf8(b),
    decreases a.len(),
{
    if a.len() == 0 {
        assert(a + b =~= b);
    } else {
        assert((a + b).drop_first() =~= a.drop_first() + b);
        lemma_encode_concat(a.drop_first(), b);
        assert((a + b)[0] == a[0]);
    }
}

proof fn lemma_encode_single(c: char)
    ensures
        encode_utf8(seq![c]) == encode_scalar(c as u32),
{
    assert(seq![c].drop_first() =~= Seq::<char>::empty());
    assert(encode_utf8(Seq::<char>::empty()) =~= Seq::<u8>::empty());
    assert(encode_utf8(seq![c]) == encode_scalar(seq![c][0] as u32) + encode_utf8(
        seq![c].drop_first(),
    ));
    assert(encode_scalar(c as u32) + Seq::<u8>::empty() =~= encode_scalar(c as u32));
}

proof fn lemma_bv_ascii(x: u32)
    by (bit_vector)
    requires
        x < 0x80,
    ensures
        ((x & 0x7F) as u8) == (x as u8),
{
}

proof fn lemma_bv_two(x: u32)
    by (bit_vector)
    requires
        0x80 <= x < 0x800,
    ensures
        (0xC0u8 | (((x >> 6) & 0x1F) as u8)) == ((0xC0 + x / 64) as u8),
        (0x80u8 | ((x & 0x3F) as u8)) == ((0x80 + x % 64) as u8),
{
}

proof fn lemma_bv_high(y: u8)
    by (bit_vector)
    ensures
        (0xC0u8 | y) >= 0x80u8,
        (0xE0u8 | y) >= 0x80u8,
        (0xF0u8 | y) >= 0x80u8,
        (0x80u8 | y) >= 0x80u8,
{
}

/// The UTF-8 bytes of a character that the printer writes as it stands
/// hold no double quote and no backslash.
proof fn lemma_plain_bytes(c: char)
    requires
        c != '"',
        c != '\\',
    ensures
        forall|k: int| 0 <= k < encode_scalar(c as u32).len() ==> {
            let x = #[trigger] encode_scalar(c as u32)[k];
            x != 34u8 && x != 92u8
        },
{
    let u = c as u32;
    if u < 0x80 {
        lemma_bv_ascii(u);
        assert(u != 34 && u != 92);
    } else {
        lemma_bv_high(((u >> 6) & 0x1F) as u8);
        lemma_bv_high(((u >> 12) & 0x0F) as u8);
        lemma_bv_high(((u >> 18) & 0x7) as u8);
        lemma_bv_high((u & 0x3F) as u8);
        lemma_bv_high(((u >> 6) & 0x3F) as u8);
        lemma_bv_high(((u >> 12) & 0x3F) as u8);
    }
}

/// Bytes that are neither a double quote nor a backslash are stepped over
/// one by one, and copied as they are.
proof fn lemma_plain_run(b: Seq<u8>, len: int, end: int, p: int, k: int)
    requires
        0 <= p,
        0 <= k,
        p + k <= end < len <= b.len(),
        forall|j: int| p <= j < p + k ==> #[trigger] b[j] != 34u8 && b[j] != 92u8,
    ensures
        closing_quote(b, len, p) == closing_quote(b, len, p + k),
        unescape(b, p, end) == prepend_bytes(b.subrange(p, p + k), unescape(b, p + k, end)),
    decreases k,
{
    if k == 0 {
        assert(b.subrange(p, p) =~= Seq::<u8>::empty());
        match unescape(b, p, end) {
            Some(r) => {
                assert(Seq::<u8>::empty() + r =~= r);
            },
            None => {},
        }
    } else {
        lemma_plain_run(b, len, end, p + 1, k - 1);
        match unescape(b, p + k, end) {
            Some(r) => {
                assert(seq![b[p]] + (b.subrange(p + 1, p + k) + r) =~= b.subrange(p, p + k) + r);
            },
            None => {},
        }
    }
}

proof fn lemma_hex_digit(d: u32)
    requires
        d < 16,
    ensures
        (hex_digit(d) as u32) < 0x80,
        hex_value((hex_digit(d) as u32) as u8) == Some(d),
        (hex_digit(d) as u32) != 34 && (hex_digit(d) as u32) != 92,
{
}

/// The bytes that one character of a string is printed as.
spec fn piece(c: char) -> Seq<u8> {
    encode_utf8(escape_char(c))
}

proof fn lemma_ascii_encode(cs: Seq<char>)
    requires
        forall|i: int| 0 <= i < cs.len() ==> (#[trigger] cs[i] as u32) < 0x80,
    ensures
        encode_utf8(cs) == Seq::new(cs.len(), |i: int| (cs[i] as u32) as u8),
    decreases cs.len(),
{
    if cs.len() > 0 {
        lemma_ascii_encode(cs.drop_first());
        lemma_bv_ascii(cs[0] as u32);
        assert(encode_utf8(cs) =~= Seq::new(cs.len(), |i: int| (cs[i] as u32) as u8));
    }
}

/// One character's printed form is stepped over by the scan for the closing
/// quote and unescapes to the character's own UTF-8 bytes.
#[verifier::rlimit(100)]
#[verifier::spinoff_prover]
proof fn lemma_piece(b: Seq<u8>, len: int, end: int, p: int, c: char)
    requires
        0 <= p,
        p + piece(c).len() <= end < len <= b.len(),
        b.subrange(p, p + piece(c).len()) == piece(c),
    ensures
        closing_quote(b, len, p) == closing_quote(b, len, p + piece(c).len()),
        unescape(b, p, end) == prepend_bytes(encode_utf8(seq![c]), unescape(b, p + piece(c).len(), end)),
{
    let u = c as u32;
    let pc = piece(c);
    lemma_encode_single(c);
    assert(forall|j: int| 0 <= j < pc.len() ==> b[p + j] == #[trigger] pc[j]) by {
        assert forall|j: int| 0 <= j < pc.len() implies b[p + j] == #[trigger] pc[j] by {
            assert(b.subrange(p, p + pc.len())[j] == b[p + j]);
        }
    }
    if c == '"' || c == '\\' || c == '\x08' || c == '\x0c' || c == '\n' || c == '\r' || c == '\t' {
        lemma_ascii_encode(escape_char(c));
        assert(pc.len() == 2);
        assert(escape_char(c)[0] == '\\');
        assert(pc[0] == 92u8);
        assert(b[p + 0] == pc[0]);
        assert(b[p + 1] == pc[1]);
        lemma_bv_ascii(u);
        assert(encode_utf8(seq![c]) == seq![u as u8]);
        match unescape(b, p + 2, end) {
            Some(r) => {
                assert(seq![u as u8] + r == seq![u as u8] + r);
            },
            None => {},
        }
    } else if is_control(c) {
        lemma_hex_digit(u / 16);
        lemma_hex_digit(u % 16);
        lemma_ascii_encode(escape_char(c));
        assert(pc.len() == 6);
        assert(escape_char(c)[0] == '\\' && escape_char(c)[1] == 'u' && escape_char(c)[2] == '0'
            && escape_char(c)[3] == '0');
        assert(b[p + 0] == pc[0] && b[p + 1] == pc[1] && b[p + 2] == pc[2] && b[p + 3] == pc[3]);
        assert(b[p + 4] == pc[4] && b[p + 5] == pc[5]);
        assert(b[p] == 92u8 && b[p + 1] == 117u8 && b[p + 2] == 48u8 && b[p + 3] == 48u8);
        assert(hex4(b, p + 2) == Some(u));
        if u < 0x80 {
            lemma_bv_ascii(u);
            assert(utf8_of(u) == encode_scalar(u));
        } else {
            lemma_bv_two(u);
            assert(utf8_of(u) =~= encode_scalar(u));
        }
        assert(utf16_at(b, p, end) == Some((encode_scalar(u), 6int)));
        assert(closing_quote(b, len, p) == closing_quote(b, len, p + 2));
        lemma_plain_run(b, len, end, p + 2, 4);
    } else {
        assert(escape_char(c) == seq![c]);
        lemma_plain_bytes(c);
        assert forall|j: int| p <= j < p + pc.len() implies #[trigger] b[j] != 34u8 && b[j] != 92u8 by {
            assert(b[j] == pc[j - p]);
        }
        lemma_plain_run(b, len, end, p, pc.len() as int);
        assert(b.subrange(p, p + pc.len()) == encode_utf8(seq![c]));
    }
}

/// The printed form of a whole string body, character by character.
#[verifier::rlimit(100)]
#[verifier::spinoff_prover]
proof fn lemma_body(b: Seq<u8>, len: int, end: int, p: int, s: Seq<char>)
    requires
        0 <= p,
        p + encode_utf8(escape(s)).len() <= end < len <= b.len(),
        b.subrange(p, p + encode_utf8(escape(s)).len()) == encode_utf8(escape(s)),
    ensures
        closing_quote(b, len, p) == closing_quote(b, len, p + encode_utf8(escape(s)).len()),
        unescape(b, p, end) == prepend_bytes(encode_utf8(s), unescape(b, p + encode_utf8(escape(s)).len(), end)),
    decreases s.len(),
{
    if s.len() == 0 {
        assert(escape(s) =~= Seq::<char>::empty());
        match unescape(b, p, end) {
            Some(r) => {
                assert(Seq::<u8>::empty() + r =~= r);
            },
            None => {},
        }
    } else {
        let c = s[0];
        let rest = s.drop_first();
        assert(s =~= seq![c] + rest);
        lemma_escape_concat(seq![c], rest);
        assert(seq![c].drop_last() =~= Seq::<char>::empty());
        assert(escape(Seq::<char>::empty()) =~= Seq::<char>::empty());
        assert(escape(seq![c]) == escape(seq![c].drop_last()) + escape_char(seq![c].last()));
        assert(escape(seq![c]) =~= escape_char(c));
        lemma_encode_concat(escape_char(c), escape(rest));
        lemma_encode_concat(seq![c], rest);
        let pc = piece(c);
        let er = encode_utf8(escape(rest));
        assert(encode_utf8(escape(s)) == pc + er);
        assert(b.subrange(p, p + pc.len()) =~= pc) by {
            assert(b.subrange(p, p + pc.len()) =~= b.subrange(p, p + (pc + er).len()).subrange(0, pc.len() as int));
        }
        assert(b.subrange(p + pc.len(), p + pc.len() + er.len()) =~= er) by {
            assert(b.subrange(p + pc.len(), p + pc.len() + er.len()) =~= b.subrange(p, p + (pc + er).len()).subrange(pc.len() as int, (pc + er).len() as int));
        }
        lemma_piece(b, len, end, p, c);
        lemma_body(b, len, end, p + pc.len(), rest);
        match unescape(b, p + pc.len() + er.len(), end) {
            Some(r) => {
                assert(encode_utf8(seq![c]) + (encode_utf8(rest) + r) =~= encode_utf8(s) + r);
            },
            None => {},
        }
    }
}

/// A string survives printing and parsing: where the input holds the
/// printed literal of `s` at `p` (followed by anything), the parser reads `s`
/// back and ends just past the literal.
pub proof fn law_string_round_trip(s: Seq<char>, b: Seq<u8>, len: int, p: int)
    requires
        0 <= p,
        p + encode_utf8(quoted(s)).len() <= len <= b.len(),
        b.subrange(p, p + encode_utf8(quoted(s)).len()) == encode_utf8(quoted(s)),
    ensures
        string_at(b, len, p) == Some((s, p + encode_utf8(quoted(s)).len())),
{
    let e = encode_utf8(escape(s));
    lemma_encode_concat(seq!['"'] + escape(s), seq!['"']);
    lemma_encode_concat(seq!['"'], escape(s));
    lemma_encode_single('"');
    lemma_bv_ascii(34);
    let q = encode_utf8(seq!['"']);
    assert(q == seq![34u8]);
    let lit = encode_utf8(quoted(s));
    assert(lit == q + e + q);
    let end: int = p + 1 + e.len() as int;
    assert(b[p] == b.subrange(p, p + lit.len())[0]);
    assert(b[end] == b.subrange(p, p + lit.len())[end - p]);
    assert(b.subrange(p + 1, end) =~= b.subrange(p, p + lit.len()).subrange(1, end - p));
    assert(lit.subrange(1, end - p) =~= e);
    lemma_body(b, len, end, p + 1, s);
    assert(closing_quote(b, len, end) == Some(end));
    assert(unescape(b, end, end) == Some(Seq::<u8>::empty()));
    assert(encode_utf8(s) + Seq::<u8>::empty() =~= encode_utf8(s));
    vstd::utf8::encode_utf8_valid_utf8(s);
    vstd::utf8::encode_utf8_decode_utf8(s);
}

proof fn lemma_skip_zeros_spot(d: Seq<u8>, i: int)
    requires
        0 <= i <= d.len(),
    ensures
        i <= skip_zeros(d, i) <= d.len(),
        skip_zeros(d, i) < d.len() ==> d[skip_zeros(d, i)] != 0,
    decreases d.len() - i,
{
    if i < d.len() && d[i] == 0 {
        lemma_skip_zeros_spot(d, i + 1);
    }
}

proof fn lemma_trim_zeros_spot(d: Seq<u8>, j: int)
    requires
        0 <= j <= d.len(),
    ensures
        0 <= trim_zeros(d, j) <= j,
        trim_zeros(d, j) > 0 ==> d[trim_zeros(d, j) - 1] != 0,
    decreases j,
{
    if 0 < j && d[j - 1] == 0 {
        lemma_trim_zeros_spot(d, j - 1);
    }
}

proof fn lemma_digit_run_to(t: Seq<u8>, i: int, j: int)
    requires
        0 <= i <= j <= t.len(),
        forall|k: int| i <= k < j ==> is_digit(#[trigger] t[k]),
        j == t.len() || !is_digit(t[j]),
    ensures
        digit_run(t, i) == j,
    decreases j - i,
{
    if i < j {
        lemma_digit_run_to(t, i + 1, j);
    }
}

proof fn lemma_token_end_to(b: Seq<u8>, len: int, i: int, k: int, j: int)
    requires
        0 <= i <= k <= j <= len <= b.len(),
        j - i <= MAX_NUMBER_TOKEN,
        forall|x: int| k <= x < j ==> is_number_byte(#[trigger] b[x]),
        j == len || j - i == MAX_NUMBER_TOKEN || !is_number_byte(b[j]),
    ensures
        token_end(b, len, i, k) == j,
    decreases j - k,
{
    if k < j {
        lemma_token_end_to(b, len, i, k + 1, j);
    }
}

/// The bytes of ASCII text.
pub open spec fn ascii_bytes(cs: Seq<char>) -> Seq<u8> {
    Seq::new(cs.len(), |i: int| (cs[i] as u32) as u8)
}

proof fn lemma_digit_bytes(x: Seq<u8>)
    requires
        digits_ok(x),
    ensures
        ascii_bytes(digit_chars(x)) == Seq::new(x.len(), |i: int| (x[i] + 48) as u8),
        digit_values(ascii_bytes(digit_chars(x))) == x,
{
    assert(ascii_bytes(digit_chars(x)) =~= Seq::new(x.len(), |i: int| (x[i] + 48) as u8));
    assert(digit_values(ascii_bytes(digit_chars(x))) =~= x);
}

/// A number survives printing and parsing up to its formatting: where the
/// input holds the printed text of a number (at most `MAX_NUMBER_TOKEN`
/// bytes) and no byte that may continue a number follows, the parser reads a
/// number that prints as the same text and ends just past it.
#[verifier::rlimit(100)]
#[verifier::spinoff_prover]
pub proof fn law_number_round_trip(n: NumberView, b: Seq<u8>, len: int, p: int)
    requires
        digits_ok(n.digits),
        render_number(n).len() <= MAX_NUMBER_TOKEN,
        0 <= p,
        p + render_number(n).len() <= len <= b.len(),
        b.subrange(p, p + render_number(n).len()) == ascii_bytes(render_number(n)),
        p + render_number(n).len() == len || !is_number_byte(b[p + render_number(n).len()]),
    ensures
        number_at(b, len, p) matches Some((m, e)) && e == p + render_number(n).len()
            && render_number(m) == render_number(n),
{
    let r = render_number(n);
    let ip = int_part(n);
    let fp = frac_part(n);
    let a = skip_zeros(ip, 0);
    let bb = trim_zeros(fp, fp.len() as int);
    lemma_skip_zeros_spot(ip, 0);
    lemma_trim_zeros_spot(fp, fp.len() as int);
    assert(digits_ok(ip));
    assert(digits_ok(fp));
    let ip2 = if a >= ip.len() {
        seq![0u8]
    } else {
        ip.subrange(a, ip.len() as int)
    };
    let fp2 = fp.subrange(0, bb);
    assert(digits_ok(ip2));
    assert(digits_ok(fp2));
    let sign = if n.negative {
        seq!['-']
    } else {
        Seq::<char>::empty()
    };
    assert(digit_chars(seq![0u8]) =~= seq!['0']);
    let whole = digit_chars(ip2);
    let frac = if bb <= 0 {
        Seq::<char>::empty()
    } else {
        seq!['.'] + digit_chars(fp2)
    };
    assert(r == sign + whole + frac);
    let t = b.subrange(p, p + r.len());
    lemma_digit_bytes(ip2);
    lemma_digit_bytes(fp2);
    let sl: int = if n.negative {
        1
    } else {
        0
    };
    let i1 = sl + ip2.len();
    assert(t.len() == r.len());
    assert forall|k: int| 0 <= k < t.len() implies t[k] == (r[k] as u32) as u8 by {
        assert(t[k] == ascii_bytes(r)[k]);
    }
    assert forall|k: int| sl <= k < i1 implies is_digit(#[trigger] t[k]) by {
        assert(r[k] == whole[k - sl]);
    }
    assert forall|k: int| i1 + 1 <= k < t.len() && bb > 0 implies is_digit(#[trigger] t[k]) by {
        assert(r[k] == frac[k - i1]);
        assert(frac[k - i1] == digit_chars(fp2)[k - i1 - 1]);
    }
    if n.negative {
        assert(t[0] == 45u8);
    } else {
        assert(r[0] == whole[0]);
        assert(is_digit(t[0]));
    }
    assert(sign_len(t) == sl);
    if bb > 0 {
        assert(r[i1] == '.');
        assert(t[i1] == 46u8);
        lemma_digit_run_to(t, sl, i1);
        lemma_digit_run_to(t, i1 + 1, t.len() as int);
        assert(t.subrange(sl, i1) =~= ascii_bytes(digit_chars(ip2)));
        assert(t.subrange(i1 + 1, t.len() as int) =~= ascii_bytes(digit_chars(fp2)));
    } else {
        assert(t.len() == i1);
        lemma_digit_run_to(t, sl, i1);
        assert(t.subrange(sl, i1) =~= ascii_bytes(digit_chars(ip2)));
        assert(fp2 =~= Seq::<u8>::empty());
        assert(t.subrange(i1, i1) =~= ascii_bytes(digit_chars(fp2)));
    }
    assert(mantissa(t) =~= ip2 + fp2);
    let m = NumberView { negative: n.negative, digits: ip2 + fp2, exponent: -bb };
    assert(token_number(t) == Some(m));
    assert forall|x: int| p <= x < p + r.len() implies is_number_byte(#[trigger] b[x]) by {
        assert(b[x] == t[x - p]);
        if x - p < sl {
        } else if x - p < i1 {
        } else if x - p == i1 {
        } else {
        }
    }
    lemma_token_end_to(b, len, p, p, p + r.len());
    assert(int_part(m) =~= ip2);
    assert(frac_part(m) =~= fp2);
    lemma_skip_zeros_spot(ip2, 0);
    if a >= ip.len() {
        assert(skip_zeros(ip2, 0) == 1);
    } else {
        assert(ip2[0] != 0);
        assert(skip_zeros(ip2, 0) == 0);
        assert(ip2.subrange(0, ip2.len() as int) =~= ip2);
    }
    if bb > 0 {
        assert(fp2[bb - 1] != 0);
        assert(trim_zeros(fp2, bb) == bb);
        assert(fp2.subrange(0, bb) =~= fp2);
    } else {
        assert(trim_zeros(fp2, 0) == 0);
    }
    assert(render_number(m) =~= r);
}

/// Trees whose printed text the parser reads back: no raw or invalid
/// values, strings with text, numbers printed in at most `MAX_NUMBER_TOKEN`
/// bytes, object members with non-empty keys, and arrays and objects nested
/// fewer than `CJSON_NESTING_LIMIT` deep, counting from depth `d`.
pub open spec fn printable(v: Node, d: int) -> bool
    decreases v, v.children.len() + 1,
{
    if v.kind == JsonKind::Null || v.kind == JsonKind::True || v.kind == JsonKind::False {
        true
    } else if v.kind == JsonKind::Number {
        digits_ok(v.number.digits) && render_number(v.number).len() <= MAX_NUMBER_TOKEN
    } else if v.kind == JsonKind::String {
        v.text is Some
    } else if v.kind == JsonKind::Array {
        0 <= d < CJSON_NESTING_LIMIT && items_printable(v, d, v.children.len() as int, false)
    } else if v.kind == JsonKind::Object {
        0 <= d < CJSON_NESTING_LIMIT && items_printable(v, d, v.children.len() as int, true)
    } else {
        false
    }
}

/// The first `k` children of `v` are printable one level down, and where
/// `keyed`, each carries a non-empty key.
pub open spec fn items_printable(v: Node, d: int, k: int, keyed: bool) -> bool
    decreases v, k,
{
    if k <= 0 || k > v.children.len() {
        true
    } else {
        items_printable(v, d, k - 1, keyed) && printable(v.children[k - 1], d + 1) && (!keyed || (
        v.children[k - 1].key is Some && v.children[k - 1].key->0.len() > 0))
    }
}

proof fn lemma_item_printable(v: Node, d: int, k: int, keyed: bool, i: int)
    requires
        items_printable(v, d, k, keyed),
        0 <= i < k <= v.children.len(),
    ensures
        printable(v.children[i], d + 1),
        keyed ==> (v.children[i].key is Some && v.children[i].key->0.len() > 0),
    decreases k,
{
    if i < k - 1 {
        lemma_item_printable(v, d, k - 1, keyed, i);
    }
}

proof fn lemma_child_printable(v: Node, d: int, i: int)
    requires
        printable(v, d),
        v.kind == JsonKind::Array || v.kind == JsonKind::Object,
        0 <= i < v.children.len(),
    ensures
        printable(v.children[i], d + 1),
        v.kind == JsonKind::Object ==> (v.children[i].key is Some && v.children[i].key->0.len() > 0),
{
    if v.kind == JsonKind::Array {
        lemma_item_printable(v, d, v.children.len() as int, false, i);
    } else {
        lemma_item_printable(v, d, v.children.len() as int, true, i);
    }
}

/// The bytes that a value prints as.
pub open spec fn printed_bytes(v: Node) -> Seq<u8> {
    encode_utf8(render(v)->0)
}

/// Characters that a printed value may start with.
pub open spec fn opens_value(c: char) -> bool {
    c == 'n' || c == 't' || c == 'f' || c == '"' || c == '-' || c == '[' || c == '{' || ('0' <= c
        && c <= '9')
}

proof fn lemma_number_text(n: NumberView)
    requires
        digits_ok(n.digits),
    ensures
        render_number(n).len() > 0,
        forall|k: int| 0 <= k < render_number(n).len() ==> (#[trigger] render_number(n)[k] as u32) < 0x80,
        render_number(n)[0] == '-' || ('0' <= render_number(n)[0] && render_number(n)[0] <= '9'),
{
    let ip = int_part(n);
    let fp = frac_part(n);
    let a = skip_zeros(ip, 0);
    let bb = trim_zeros(fp, fp.len() as int);
    lemma_skip_zeros_spot(ip, 0);
    lemma_trim_zeros_spot(fp, fp.len() as int);
    assert(digits_ok(ip));
    assert(digits_ok(fp));
    let r = render_number(n);
    let sign = if n.negative {
        seq!['-']
    } else {
        Seq::<char>::empty()
    };
    let whole = if a >= ip.len() {
        seq!['0']
    } else {
        digit_chars(ip.subrange(a, ip.len() as int))
    };
    let frac = if bb <= 0 {
        Seq::<char>::empty()
    } else {
        seq!['.'] + digit_chars(fp.subrange(0, bb))
    };
    assert(r == sign + whole + frac);
    assert forall|k: int| 0 <= k < r.len() implies (#[trigger] r[k] as u32) < 0x80 by {
        if k < sign.len() {
        } else if k < sign.len() as int + whole.len() {
            if a < ip.len() {
                assert(whole[k - sign.len() as int] == digit_chars(ip.subrange(a, ip.len() as int))[k - sign.len() as int]);
            }
        } else {
            if bb > 0 && k > sign.len() as int + whole.len() {
                assert(frac[k - sign.len() as int - whole.len() as int] == digit_chars(fp.subrange(0, bb))[k
                    - sign.len() as int - whole.len() as int - 1]);
            }
        }
    }
    if !n.negative {
        assert(r[0] == whole[0]);
    }
}

proof fn lemma_first_byte(r: Seq<char>)
    requires
        r.len() > 0,
        (r[0] as u32) < 0x80,
    ensures
        encode_utf8(r).len() > 0,
        encode_utf8(r)[0] == (r[0] as u32) as u8,
{
    lemma_bv_ascii(r[0] as u32);
    assert(encode_utf8(r) == encode_scalar(r[0] as u32) + encode_utf8(r.drop_first()));
}

proof fn lemma_elements_some(v: Node, d: int, k: int)
    requires
        printable(v, d),
        v.kind == JsonKind::Array,
        0 <= k <= v.children.len() as int,
    ensures
        render_elements(v, k) is Some,
    decreases v, k,
{
    if k > 0 {
        lemma_elements_some(v, d, k - 1);
        lemma_child_printable(v, d, k - 1);
        lemma_printable_renders(v.children[k - 1], d + 1);
    }
}

proof fn lemma_members_some(v: Node, d: int, k: int)
    requires
        printable(v, d),
        v.kind == JsonKind::Object,
        0 <= k <= v.children.len() as int,
    ensures
        render_members(v, k) is Some,
        k > 0 ==> render_members(v, k)->0.len() > 0,
    decreases v, k,
{
    if k > 0 {
        lemma_members_some(v, d, k - 1);
        lemma_child_printable(v, d, k - 1);
        lemma_printable_renders(v.children[k - 1], d + 1);
    }
}

/// A printable value prints, as text that opens a value.
proof fn lemma_printable_renders(v: Node, d: int)
    requires
        printable(v, d),
    ensures
        render(v) is Some,
        render(v)->0.len() > 0,
        opens_value(render(v)->0[0]),
        (render(v)->0[0] as u32) < 0x80,
    decreases v, v.children.len() as int + 1,
{
    if v.kind == JsonKind::Number {
        lemma_number_text(v.number);
    } else if v.kind == JsonKind::Array {
        lemma_elements_some(v, d, v.children.len() as int);
    } else if v.kind == JsonKind::Object {
        lemma_members_some(v, d, v.children.len() as int);
    }
}

proof fn lemma_elements_equal(x: Node, y: Node, k: int)
    requires
        0 <= k <= x.children.len() as int,
        x.children.len() == y.children.len() as int,
        forall|i: int| 0 <= i < k ==> render(#[trigger] x.children[i]) == render(y.children[i]),
    ensures
        render_elements(x, k) == render_elements(y, k),
    decreases k,
{
    if k > 0 {
        lemma_elements_equal(x, y, k - 1);
        assert(render(x.children[k - 1]) == render(y.children[k - 1]));
    }
}

proof fn lemma_members_equal(x: Node, y: Node, k: int)
    requires
        0 <= k <= x.children.len() as int,
        x.children.len() == y.children.len() as int,
        forall|i: int|
            0 <= i < k ==> render(#[trigger] x.children[i]) == render(y.children[i])
                && x.children[i].key == y.children[i].key,
    ensures
        render_members(x, k) == render_members(y, k),
    decreases k,
{
    if k > 0 {
        lemma_members_equal(x, y, k - 1);
        assert(render(x.children[k - 1]) == render(y.children[k - 1]));
    }
}

proof fn lemma_ascii_sep(c1: char, c2: char)
    requires
        (c1 as u32) < 0x80,
        (c2 as u32) < 0x80,
    ensures
        encode_utf8(seq![c1, c2]) == seq![(c1 as u32) as u8, (c2 as u32) as u8],
{
    lemma_ascii_encode(seq![c1, c2]);
    assert(encode_utf8(seq![c1, c2]) =~= seq![(c1 as u32) as u8, (c2 as u32) as u8]);
}

proof fn lemma_ascii_one(c: char)
    requires
        (c as u32) < 0x80,
    ensures
        encode_utf8(seq![c]) == seq![(c as u32) as u8],
{
    lemma_encode_single(c);
    lemma_bv_ascii(c as u32);
}

/// Where `small` stands at `off` in `big`, and `big` at `p` in `b`, `small`
/// stands at `p + off` in `b`.
proof fn lemma_inside(b: Seq<u8>, p: int, big: Seq<u8>, off: int, small: Seq<u8>)
    requires
        0 <= p,
        0 <= off,
        off + small.len() <= big.len() as int,
        p + big.len() <= b.len() as int,
        b.subrange(p, p + big.len() as int) == big,
        big.subrange(off, off + small.len() as int) == small,
    ensures
        b.subrange(p + off, p + off + small.len() as int) == small,
{
    assert forall|j: int| 0 <= j < small.len() implies b.subrange(p + off, p + off + small.len() as int)[j]
        == small[j] by {
        assert(small[j] == big.subrange(off, off + small.len() as int)[j]);
        assert(big[off + j] == b.subrange(p, p + big.len() as int)[off + j]);
    }
    assert(b.subrange(p + off, p + off + small.len() as int) =~= small);
}

proof fn lemma_byte_inside(b: Seq<u8>, p: int, big: Seq<u8>, off: int)
    requires
        0 <= p,
        0 <= off < big.len() as int,
        p + big.len() <= b.len() as int,
        b.subrange(p, p + big.len() as int) == big,
    ensures
        b[p + off] == big[off],
{
    assert(big[off] == b.subrange(p, p + big.len() as int)[off]);
}

proof fn lemma_enclosed_byte(pv: Seq<u8>, open: u8, inner: Seq<u8>, close: u8, j: int)
    requires
        pv == seq![open] + inner + seq![close],
        0 <= j <= inner.len(),
    ensures
        pv.len() == inner.len() + 2,
        j < inner.len() ==> pv[1 + j] == inner[j],
        j == inner.len() ==> pv[1 + j] == close,
{
}

proof fn lemma_prefix_byte(a: Seq<u8>, b: Seq<u8>, j: int)
    requires
        is_byte_prefix(a, b),
        0 <= j < a.len(),
    ensures
        b[j] == a[j],
{
    assert(b.subrange(0, a.len() as int)[j] == b[j]);
}

/// The byte just past item `k` of a container: a comma where another item
/// follows, else the closing bracket.
proof fn lemma_after_byte(v: Node, d: int, b: Seq<u8>, p: int, k: int)
    requires
        printable(v, d),
        v.kind == JsonKind::Array || v.kind == JsonKind::Object,
        0 <= k < v.children.len(),
        0 <= p,
        p + printed_bytes(v).len() <= b.len(),
        b.subrange(p, p + printed_bytes(v).len()) == printed_bytes(v),
    ensures
        ({
            let ek1 = if v.kind == JsonKind::Array {
                encode_utf8(render_elements(v, k + 1)->0)
            } else {
                encode_utf8(render_members(v, k + 1)->0)
            };
            let inner = if v.kind == JsonKind::Array {
                encode_utf8(render_elements(v, v.children.len() as int)->0)
            } else {
                encode_utf8(render_members(v, v.children.len() as int)->0)
            };
            &&& ek1.len() <= inner.len()
            &&& p + 1 + ek1.len() < p + printed_bytes(v).len()
            &&& k + 1 < v.children.len() ==> b[p + 1 + ek1.len()] == 44u8
            &&& k + 1 == v.children.len() ==> (b[p + 1 + ek1.len()] == if v.kind == JsonKind::Array {
                93u8
            } else {
                125u8
            } && ek1.len() == inner.len())
        }),
{
    let n = v.children.len() as int;
    let pv = printed_bytes(v);
    lemma_container_layout(v, d, k + 1);
    let ek1 = if v.kind == JsonKind::Array {
        encode_utf8(render_elements(v, k + 1)->0)
    } else {
        encode_utf8(render_members(v, k + 1)->0)
    };
    let inner = if v.kind == JsonKind::Array {
        encode_utf8(render_elements(v, n)->0)
    } else {
        encode_utf8(render_members(v, n)->0)
    };
    let close: u8 = if v.kind == JsonKind::Array {
        93u8
    } else {
        125u8
    };
    let open: u8 = if v.kind == JsonKind::Array {
        91u8
    } else {
        123u8
    };
    assert(pv == seq![open] + inner + seq![close]);
    if k + 1 < n {
        lemma_after_item(v, d, k);
        lemma_container_layout(v, d, k + 2);
        let ek2 = if v.kind == JsonKind::Array {
            encode_utf8(render_elements(v, k + 2)->0)
        } else {
            encode_utf8(render_members(v, k + 2)->0)
        };
        assert(ek2[ek1.len() as int] == ek2.subrange(ek1.len() as int, ek1.len() as int + 2)[0]);
        lemma_prefix_byte(ek2, inner, ek1.len() as int);
        lemma_enclosed_byte(pv, open, inner, close, ek1.len() as int);
        lemma_byte_inside(b, p, pv, 1 + ek1.len() as int);
    } else {
        lemma_enclosed_byte(pv, open, inner, close, inner.len() as int);
        lemma_byte_inside(b, p, pv, 1 + inner.len() as int);
    }
}

/// The text of the first `k + 1` elements: that of the first `k`, a comma
/// and a space where `k > 0`, and the element.
proof fn lemma_elements_step(v: Node, d: int, k: int)
    requires
        printable(v, d),
        v.kind == JsonKind::Array,
        0 <= k < v.children.len() as int,
    ensures
        encode_utf8(render_elements(v, k + 1)->0) == encode_utf8(render_elements(v, k)->0) + (if k
            == 0 {
            Seq::<u8>::empty()
        } else {
            seq![44u8, 32u8]
        }) + printed_bytes(v.children[k]),
        k == 0 ==> encode_utf8(render_elements(v, k)->0).len() == 0,
{
    lemma_elements_some(v, d, k + 1);
    lemma_elements_some(v, d, k);
    let prev = render_elements(v, k)->0;
    let cur = render(v.children[k])->0;
    if k == 0 {
        assert(prev =~= Seq::<char>::empty());
        assert(encode_utf8(prev) =~= Seq::<u8>::empty());
        assert(Seq::<u8>::empty() + Seq::<u8>::empty() + printed_bytes(v.children[k]) =~= printed_bytes(v.children[k]));
    } else {
        lemma_encode_concat(prev + comma(), cur);
        lemma_encode_concat(prev, comma());
        lemma_ascii_sep(',', ' ');
    }
}

proof fn lemma_members_step(v: Node, d: int, k: int)
    requires
        printable(v, d),
        v.kind == JsonKind::Object,
        0 <= k < v.children.len() as int,
    ensures
        v.children[k].key is Some,
        encode_utf8(render_members(v, k + 1)->0) == encode_utf8(render_members(v, k)->0) + (if k
            == 0 {
            Seq::<u8>::empty()
        } else {
            seq![44u8, 32u8]
        }) + encode_utf8(quoted(v.children[k].key->0)) + seq![58u8, 32u8] + printed_bytes(
            v.children[k],
        ),
        k == 0 ==> encode_utf8(render_members(v, k)->0).len() == 0,
{
    lemma_members_some(v, d, k + 1);
    lemma_members_some(v, d, k);
    lemma_child_printable(v, d, k);
    let prev = render_members(v, k)->0;
    let cur = render(v.children[k])->0;
    let key = v.children[k].key->0;
    lemma_encode_concat(quoted(key) + colon(), cur);
    lemma_encode_concat(quoted(key), colon());
    lemma_ascii_sep(':', ' ');
    if k == 0 {
        assert(prev =~= Seq::<char>::empty());
        assert(encode_utf8(prev) =~= Seq::<u8>::empty());
        assert(Seq::<u8>::empty() + Seq::<u8>::empty() + encode_utf8(quoted(key)) + seq![58u8, 32u8]
            + printed_bytes(v.children[k]) =~= encode_utf8(quoted(key)) + seq![58u8, 32u8]
            + printed_bytes(v.children[k]));
    } else {
        lemma_encode_concat(prev + comma() + quoted(key) + colon(), cur);
        lemma_encode_concat(prev + comma() + quoted(key), colon());
        lemma_encode_concat(prev + comma(), quoted(key));
        lemma_encode_concat(prev, comma());
        lemma_ascii_sep(',', ' ');
        assert(prev + comma() + quoted(key) + colon() + cur =~= prev + comma() + (quoted(key) + colon()
            + cur));
    }
}

/// The printed text of a container: its bracket, the bytes of the items, its
/// closing bracket; the text of the first `k` items is a prefix of that of all.
proof fn lemma_container_layout(v: Node, d: int, k: int)
    requires
        printable(v, d),
        v.kind == JsonKind::Array || v.kind == JsonKind::Object,
        0 <= k <= v.children.len() as int,
    ensures
        v.kind == JsonKind::Array ==> printed_bytes(v) == seq![91u8] + encode_utf8(
            render_elements(v, v.children.len() as int)->0,
        ) + seq![93u8],
        v.kind == JsonKind::Object ==> printed_bytes(v) == seq![123u8] + encode_utf8(
            render_members(v, v.children.len() as int)->0,
        ) + seq![125u8],
        v.kind == JsonKind::Array ==> is_byte_prefix(
            encode_utf8(render_elements(v, k)->0),
            encode_utf8(render_elements(v, v.children.len() as int)->0),
        ),
        v.kind == JsonKind::Object ==> is_byte_prefix(
            encode_utf8(render_members(v, k)->0),
            encode_utf8(render_members(v, v.children.len() as int)->0),
        ),
{
    let n = v.children.len() as int;
    if v.kind == JsonKind::Array {
        lemma_elements_some(v, d, n);
        let inner = render_elements(v, n)->0;
        lemma_encode_concat(seq!['['] + inner, seq![']']);
        lemma_encode_concat(seq!['['], inner);
        lemma_ascii_one('[');
        lemma_ascii_one(']');
        lemma_elements_prefix(v, k, n);
        let a = render_elements(v, k)->0;
        let rest = inner.subrange(a.len() as int, inner.len() as int);
        assert(a + rest =~= inner);
        lemma_encode_concat(a, rest);
        assert(encode_utf8(inner).subrange(0, encode_utf8(a).len() as int) =~= encode_utf8(a));
    } else {
        lemma_members_some(v, d, n);
        let inner = render_members(v, n)->0;
        lemma_encode_concat(seq!['{'] + inner, seq!['}']);
        lemma_encode_concat(seq!['{'], inner);
        lemma_ascii_one('{');
        lemma_ascii_one('}');
        lemma_members_prefix(v, k, n);
        let a = render_members(v, k)->0;
        let rest = inner.subrange(a.len() as int, inner.len() as int);
        assert(a + rest =~= inner);
        lemma_encode_concat(a, rest);
        assert(encode_utf8(inner).subrange(0, encode_utf8(a).len() as int) =~= encode_utf8(a));
    }
}

pub open spec fn is_byte_prefix(a: Seq<u8>, b: Seq<u8>) -> bool {
    a.len() <= b.len() && b.subrange(0, a.len() as int) == a
}

/// Where the item after `k` is no last one, a comma and a space follow it.
proof fn lemma_after_item(v: Node, d: int, k: int)
    requires
        printable(v, d),
        v.kind == JsonKind::Array || v.kind == JsonKind::Object,
        0 <= k,
        k + 1 < v.children.len() as int,
    ensures
        v.kind == JsonKind::Array ==> encode_utf8(render_elements(v, k + 2)->0).subrange(
            encode_utf8(render_elements(v, k + 1)->0).len() as int,
            encode_utf8(render_elements(v, k + 1)->0).len() as int + 2,
        ) == seq![44u8, 32u8],
        v.kind == JsonKind::Object ==> encode_utf8(render_members(v, k + 2)->0).subrange(
            encode_utf8(render_members(v, k + 1)->0).len() as int,
            encode_utf8(render_members(v, k + 1)->0).len() as int + 2,
        ) == seq![44u8, 32u8],
        v.kind == JsonKind::Array ==> encode_utf8(render_elements(v, k + 2)->0).len() >= encode_utf8(
            render_elements(v, k + 1)->0,
        ).len() + 2,
        v.kind == JsonKind::Object ==> encode_utf8(render_members(v, k + 2)->0).len() >= encode_utf8(
            render_members(v, k + 1)->0,
        ).len() + 2,
{
    if v.kind == JsonKind::Array {
        lemma_elements_step(v, d, k + 1);
        let a = encode_utf8(render_elements(v, k + 1)->0);
        assert((a + seq![44u8, 32u8] + printed_bytes(v.children[k + 1])).subrange(a.len() as int, a.len() as int + 2)
            =~= seq![44u8, 32u8]);
    } else {
        lemma_members_step(v, d, k + 1);
        let a = encode_utf8(render_members(v, k + 1)->0);
        let key = v.children[k + 1].key->0;
        assert((a + seq![44u8, 32u8] + encode_utf8(quoted(key)) + seq![58u8, 32u8] + printed_bytes(
            v.children[k + 1],
        )).subrange(a.len() as int, a.len() as int + 2) =~= seq![44u8, 32u8]);
    }
}

proof fn lemma_opens_not_ws(v: Node, d: int)
    requires
        printable(v, d),
    ensures
        printed_bytes(v).len() > 0,
        !is_ws(printed_bytes(v)[0]),
        printed_bytes(v)[0] != 44u8 && printed_bytes(v)[0] != 93u8 && printed_bytes(v)[0] != 125u8,
        printed_bytes(v)[0] < 0x80u8,
        printed_bytes(v)[0] != 0xEFu8,
{
    lemma_printable_renders(v, d);
    lemma_first_byte(render(v)->0);
}

/// Where element `k` starts, after the `[` or the `", "` before it.
proof fn lemma_element_pos(v: Node, d: int, b: Seq<u8>, len: int, p: int, k: int)
    requires
        printable(v, d),
        v.kind == JsonKind::Array,
        0 <= k < v.children.len(),
        0 <= p,
        p + printed_bytes(v).len() < len <= b.len(),
        b.subrange(p, p + printed_bytes(v).len() as int) == printed_bytes(v),
    ensures
        ({
            let ek = encode_utf8(render_elements(v, k)->0);
            let ek1 = encode_utf8(render_elements(v, k + 1)->0);
            let q = if k == 0 { p } else { p + 1 + ek.len() };
            let start = if k == 0 { p + 1 } else { p + 3 + ek.len() };
            let pc = printed_bytes(v.children[k]);
            &&& q < start
            &&& ws_end(b, len, q + 1) == start
            &&& b.subrange(start, start + pc.len()) == pc
            &&& start + pc.len() == p + 1 + ek1.len()
        }),
{
    let n = v.children.len() as int;
    let pv = printed_bytes(v);
    let inner = encode_utf8(render_elements(v, n)->0);
    let ek = encode_utf8(render_elements(v, k)->0);
    let ek1 = encode_utf8(render_elements(v, k + 1)->0);
    let c = v.children[k];
    let pc = printed_bytes(c);
    lemma_container_layout(v, d, k + 1);
    lemma_elements_step(v, d, k);
    lemma_child_printable(v, d, k);
    lemma_opens_not_ws(c, d + 1);
    let sl: int = if k == 0 {
        0
    } else {
        2
    };
    let q = if k == 0 {
        p
    } else {
        p + 1 + ek.len()
    };
    let start = p + 1 + ek.len() + sl;
    assert(ek1 == ek + (if k == 0 { Seq::<u8>::empty() } else { seq![44u8, 32u8] }) + pc);
    assert(pv == seq![91u8] + inner + seq![93u8]);
    assert(inner.subrange(0, ek1.len() as int) == ek1);
    assert(pv.subrange(1 + ek.len() + sl, 1 + ek.len() + sl + pc.len()) =~= pc) by {
        assert(pv.subrange(1 + ek.len() + sl, 1 + ek.len() + sl + pc.len()) =~= ek1.subrange(
            ek.len() + sl,
            ek.len() + sl + pc.len(),
        ));
    }
    lemma_inside(b, p, pv, 1 + ek.len() + sl, pc);
    assert(b[start] == pc[0]) by {
        assert(pc[0] == b.subrange(start, start + pc.len())[0]);
    }
    if k > 0 {
        lemma_prefix_byte(ek1, inner, ek.len() as int);
        lemma_prefix_byte(ek1, inner, ek.len() as int + 1);
        lemma_enclosed_byte(pv, 91u8, inner, 93u8, ek.len() as int);
        lemma_enclosed_byte(pv, 91u8, inner, 93u8, ek.len() as int + 1);
        lemma_byte_inside(b, p, pv, 1 + ek.len() as int);
        lemma_byte_inside(b, p, pv, 2 + ek.len() as int);
        assert(b[q + 1] == 32u8);
        assert(ws_end(b, len, q + 2) == q + 2);
    }
}

#[verifier::rlimit(100)]
#[verifier::spinoff_prover]
proof fn lemma_elements_rt(v: Node, d: int, b: Seq<u8>, len: int, p: int, k: int, q: int)
    requires
        printable(v, d),
        0 <= d,
        v.kind == JsonKind::Array,
        0 <= k < v.children.len(),
        0 <= p,
        p + printed_bytes(v).len() < len <= b.len(),
        b.subrange(p, p + printed_bytes(v).len() as int) == printed_bytes(v),
        q == if k == 0 {
            p
        } else {
            p + 1 + encode_utf8(render_elements(v, k)->0).len()
        },
    ensures
        elements_at(b, len, q, d + 1) matches Ok((vs, c)) && c == p + 1 + encode_utf8(render_elements(v, v.children.len() as int)->0).len()
            && vs.len() == v.children.len() - k && forall|i: int|
            0 <= i < vs.len() ==> render(#[trigger] vs[i]) == render(v.children[k + i]),
    decreases v, v.children.len() - k,
{
    let n = v.children.len() as int;
    let ek = encode_utf8(render_elements(v, k)->0);
    let ek1 = encode_utf8(render_elements(v, k + 1)->0);
    let c = v.children[k];
    let q = if k == 0 {
        p
    } else {
        p + 1 + ek.len()
    };
    let start = if k == 0 {
        p + 1
    } else {
        p + 3 + ek.len()
    };
    let after = p + 1 + ek1.len();
    lemma_element_pos(v, d, b, len, p, k);
    lemma_child_printable(v, d, k);
    lemma_after_byte(v, d, b, p, k);
    lemma_value_rt(c, d + 1, b, len, start);
    let w = value_at(b, len, start, d + 1)->Ok_0.0;
    assert(ws_end(b, len, after) == after);
    assert(elements_at(b, len, q, d + 1) == items_after(
        Ok((w, after, k + 1 < n)),
        if k + 1 < n { elements_at(b, len, after, d + 1) } else { Err(0) },
    ));
    if k + 1 < n {
        lemma_elements_rt(v, d, b, len, p, k + 1, after);
        let vs = elements_at(b, len, after, d + 1)->Ok_0.0;
        assert forall|i: int| 0 <= i < vs.len() + 1 implies render(#[trigger] (seq![w] + vs)[i])
            == render(v.children[k + i]) by {
            if i > 0 {
                assert((seq![w] + vs)[i] == vs[i - 1]);
                assert(render(vs[i - 1]) == render(v.children[(k + 1) + (i - 1)]));
            }
        }
    } else {
        assert forall|i: int| 0 <= i < 1 implies render(#[trigger] seq![w][i]) == render(
            v.children[k + i],
        ) by {}
    }
}

/// The key literal, colon and space that open member `k`, and where its value starts.
proof fn lemma_member_key(v: Node, d: int, b: Seq<u8>, len: int, p: int, k: int)
    requires
        printable(v, d),
        v.kind == JsonKind::Object,
        0 <= k < v.children.len(),
        0 <= p,
        p + printed_bytes(v).len() < len <= b.len(),
        b.subrange(p, p + printed_bytes(v).len() as int) == printed_bytes(v),
    ensures
        ({
            let ek = encode_utf8(render_members(v, k)->0);
            let ek1 = encode_utf8(render_members(v, k + 1)->0);
            let key = v.children[k].key->0;
            let lit = encode_utf8(quoted(key));
            let sl: int = if k == 0 { 0 } else { 2 };
            let ks = p + 1 + ek.len() + sl;
            let q = if k == 0 { p } else { p + 1 + ek.len() };
            &&& v.children[k].key is Some
            &&& key.len() > 0
            &&& ws_end(b, len, q + 1) == ks
            &&& b[ks] == 34u8
            &&& string_at(b, len, ks) == Some((key, ks + lit.len()))
            &&& b[ks + lit.len()] == 58u8
            &&& ws_end(b, len, ks + lit.len()) == ks + lit.len()
            &&& ws_end(b, len, ks + lit.len() + 1) == ks + lit.len() + 2
            &&& b.subrange(ks + lit.len() + 2, ks + lit.len() + 2 + printed_bytes(v.children[k]).len()) == printed_bytes(v.children[k])
            &&& ks + lit.len() + 2 + printed_bytes(v.children[k]).len() == p + 1 + ek1.len()
        }),
{
    let n = v.children.len() as int;
    let pv = printed_bytes(v);
    let inner = encode_utf8(render_members(v, n)->0);
    let ek = encode_utf8(render_members(v, k)->0);
    let ek1 = encode_utf8(render_members(v, k + 1)->0);
    let c = v.children[k];
    let pc = printed_bytes(c);
    lemma_container_layout(v, d, k + 1);
    lemma_members_step(v, d, k);
    lemma_child_printable(v, d, k);
    lemma_opens_not_ws(c, d + 1);
    let key = c.key->0;
    let lit = encode_utf8(quoted(key));
    let sl: int = if k == 0 {
        0
    } else {
        2
    };
    let q = if k == 0 {
        p
    } else {
        p + 1 + ek.len()
    };
    let ks = p + 1 + ek.len() + sl;
    let ke = ks + lit.len();
    let sep = if k == 0 {
        Seq::<u8>::empty()
    } else {
        seq![44u8, 32u8]
    };
    assert(ek1 == ek + sep + lit + seq![58u8, 32u8] + pc);
    assert(pv == seq![123u8] + inner + seq![125u8]);
    assert(inner.subrange(0, ek1.len() as int) == ek1);
    assert(pv.subrange(1 + ek.len() + sl, 1 + ek.len() + sl + lit.len()) =~= lit) by {
        assert(pv.subrange(1 + ek.len() + sl, 1 + ek.len() + sl + lit.len()) =~= ek1.subrange(
            ek.len() + sl,
            ek.len() + sl + lit.len(),
        ));
    }
    lemma_inside(b, p, pv, 1 + ek.len() + sl, lit);
    assert(pv.subrange(1 + ek.len() + sl + lit.len() + 2, 1 + ek.len() + sl + lit.len() + 2 + pc.len())
        =~= pc) by {
        assert(pv.subrange(1 + ek.len() + sl + lit.len() + 2, 1 + ek.len() + sl + lit.len() + 2 + pc.len())
            =~= ek1.subrange(ek.len() + sl + lit.len() + 2, ek.len() + sl + lit.len() + 2 + pc.len()));
    }
    lemma_inside(b, p, pv, 1 + ek.len() + sl + lit.len() + 2, pc);
    assert(b[ke + 2] == pc[0]) by {
        assert(pc[0] == b.subrange(ke + 2, ke + 2 + pc.len())[0]);
    }
    lemma_prefix_byte(ek1, inner, ek.len() + sl + lit.len());
    lemma_prefix_byte(ek1, inner, ek.len() + sl + lit.len() + 1);
    lemma_enclosed_byte(pv, 123u8, inner, 125u8, ek.len() + sl + lit.len());
    lemma_enclosed_byte(pv, 123u8, inner, 125u8, ek.len() + sl + lit.len() + 1);
    lemma_byte_inside(b, p, pv, 1 + ek.len() + sl + lit.len());
    lemma_byte_inside(b, p, pv, 2 + ek.len() + sl + lit.len());
    assert(b[ke] == 58u8);
    assert(b[ke + 1] == 32u8);
    law_string_round_trip(key, b, len, ks);
    lemma_encode_concat(seq!['"'] + escape(key), seq!['"']);
    lemma_encode_concat(seq!['"'], escape(key));
    lemma_ascii_one('"');
    assert(lit[0] == 34u8);
    assert(b[ks] == 34u8) by {
        assert(lit[0] == b.subrange(ks, ks + lit.len())[0]);
    }
    if k > 0 {
        lemma_prefix_byte(ek1, inner, ek.len() as int);
        lemma_prefix_byte(ek1, inner, ek.len() as int + 1);
        lemma_enclosed_byte(pv, 123u8, inner, 125u8, ek.len() as int);
        lemma_enclosed_byte(pv, 123u8, inner, 125u8, ek.len() as int + 1);
        lemma_byte_inside(b, p, pv, 1 + ek.len() as int);
        lemma_byte_inside(b, p, pv, 2 + ek.len() as int);
        assert(b[q + 1] == 32u8);
        assert(ws_end(b, len, q + 2) == q + 2);
    }
    assert(ws_end(b, len, ke + 2) == ke + 2);
}

#[verifier::rlimit(100)]
#[verifier::spinoff_prover]
proof fn lemma_members_rt(v: Node, d: int, b: Seq<u8>, len: int, p: int, k: int, q: int)
    requires
        printable(v, d),
        0 <= d,
        v.kind == JsonKind::Object,
        0 <= k < v.children.len(),
        0 <= p,
        p + printed_bytes(v).len() < len <= b.len(),
        b.subrange(p, p + printed_bytes(v).len() as int) == printed_bytes(v),
        q == if k == 0 {
            p
        } else {
            p + 1 + encode_utf8(render_members(v, k)->0).len()
        },
    ensures
        members_at(b, len, q, d + 1) matches Ok((vs, c)) && c == p + 1 + encode_utf8(render_members(v, v.children.len() as int)->0).len()
            && vs.len() == v.children.len() - k && forall|i: int|
            0 <= i < vs.len() ==> render(#[trigger] vs[i]) == render(v.children[k + i])
                && vs[i].key == v.children[k + i].key,
    decreases v, v.children.len() - k,
{
    let n = v.children.len() as int;
    let ek = encode_utf8(render_members(v, k)->0);
    let ek1 = encode_utf8(render_members(v, k + 1)->0);
    let c = v.children[k];
    let key = c.key->0;
    let lit = encode_utf8(quoted(key));
    lemma_member_key(v, d, b, len, p, k);
    lemma_child_printable(v, d, k);
    lemma_after_byte(v, d, b, p, k);
    let sl: int = if k == 0 {
        0
    } else {
        2
    };
    let ks = p + 1 + ek.len() + sl;
    let start = ks + lit.len() + 2;
    let after = p + 1 + ek1.len();
    lemma_value_rt(c, d + 1, b, len, start);
    let w = value_at(b, len, start, d + 1)->Ok_0.0;
    let m = keyed(w, key, false);
    lemma_render_keyed(w, key, false);
    assert(ws_end(b, len, after) == after);
    if k + 1 < n {
        lemma_members_rt(v, d, b, len, p, k + 1, after);
        let rest = members_at(b, len, after, d + 1);
        let vs = rest->Ok_0.0;
        assert forall|i: int| 0 <= i < vs.len() + 1 implies render(#[trigger] (seq![m] + vs)[i])
            == render(v.children[k + i]) && (seq![m] + vs)[i].key == v.children[k + i].key by {
            if i > 0 {
                assert((seq![m] + vs)[i] == vs[i - 1]);
                assert(render(vs[i - 1]) == render(v.children[k + 1 + (i - 1)]));
            }
        }
    } else {
        assert forall|i: int| 0 <= i < 1 implies render(#[trigger] seq![m][i]) == render(
            v.children[k + i],
        ) && seq![m][i].key == v.children[k + i].key by {}
    }
}

proof fn lemma_array_rt(v: Node, d: int, b: Seq<u8>, len: int, p: int)
    requires
        printable(v, d),
        0 <= d,
        v.kind == JsonKind::Array,
        0 <= p,
        p + printed_bytes(v).len() < len <= b.len(),
        b.subrange(p, p + printed_bytes(v).len() as int) == printed_bytes(v),
        b[p] == 91u8,
    ensures
        array_at(b, len, p, d) matches Ok((w, e)) && e == p + printed_bytes(v).len() && render(w)
            == render(v),
    decreases v, v.children.len() + 1,
{
    let n = v.children.len() as int;
    let pv = printed_bytes(v);
    lemma_container_layout(v, d, 0);
    lemma_elements_some(v, d, n);
    let inner = encode_utf8(render_elements(v, n)->0);
    assert(pv == seq![91u8] + inner + seq![93u8]);
    if n == 0 {
        assert(inner =~= Seq::<u8>::empty());
        lemma_enclosed_byte(pv, 91u8, inner, 93u8, 0);
        lemma_byte_inside(b, p, pv, 1);
        assert(ws_end(b, len, p + 1) == p + 1);
        let w = with_children(JsonKind::Array, Seq::<Node>::empty(), false);
        assert(render_elements(w, 0) == Some(Seq::<char>::empty()));
    } else {
        lemma_elements_rt(v, d, b, len, p, 0, p);
        lemma_child_printable(v, d, 0);
        lemma_opens_not_ws(v.children[0], d + 1);
        lemma_elements_step(v, d, 0);
        lemma_container_layout(v, d, 1);
        let e1 = encode_utf8(render_elements(v, 1)->0);
        assert(e1 =~= printed_bytes(v.children[0]));
        lemma_prefix_byte(e1, inner, 0);
        lemma_enclosed_byte(pv, 91u8, inner, 93u8, 0);
        lemma_byte_inside(b, p, pv, 1);
        assert(ws_end(b, len, p + 1) == p + 1);
        let res = elements_at(b, len, p, d + 1);
        let vs = res->Ok_0.0;
        let w = with_children(JsonKind::Array, vs, false);
        assert forall|i: int| 0 <= i < n implies render(#[trigger] w.children[i]) == render(
            v.children[i],
        ) by {
            assert(render(vs[i]) == render(v.children[0 + i]));
        }
        lemma_elements_equal(w, v, n);
    }
}

proof fn lemma_object_rt(v: Node, d: int, b: Seq<u8>, len: int, p: int)
    requires
        printable(v, d),
        0 <= d,
        v.kind == JsonKind::Object,
        0 <= p,
        p + printed_bytes(v).len() < len <= b.len(),
        b.subrange(p, p + printed_bytes(v).len() as int) == printed_bytes(v),
        b[p] == 123u8,
    ensures
        object_at(b, len, p, d) matches Ok((w, e)) && e == p + printed_bytes(v).len() && render(w)
            == render(v),
    decreases v, v.children.len() + 1,
{
    let n = v.children.len() as int;
    let pv = printed_bytes(v);
    lemma_container_layout(v, d, 0);
    lemma_members_some(v, d, n);
    let inner = encode_utf8(render_members(v, n)->0);
    assert(pv == seq![123u8] + inner + seq![125u8]);
    if n == 0 {
        assert(inner =~= Seq::<u8>::empty());
        lemma_enclosed_byte(pv, 123u8, inner, 125u8, 0);
        lemma_byte_inside(b, p, pv, 1);
        assert(ws_end(b, len, p + 1) == p + 1);
        let w = with_children(JsonKind::Object, Seq::<Node>::empty(), false);
        assert(render_members(w, 0) == Some(Seq::<char>::empty()));
    } else {
        lemma_members_rt(v, d, b, len, p, 0, p);
        lemma_member_key(v, d, b, len, p, 0);
        assert(ws_end(b, len, p + 1) == p + 1) by {
            assert(encode_utf8(render_members(v, 0)->0).len() == 0) by {
                lemma_members_step(v, d, 0);
            }
        }
        let res = members_at(b, len, p, d + 1);
        let vs = res->Ok_0.0;
        let w = with_children(JsonKind::Object, vs, false);
        assert forall|i: int| 0 <= i < n implies render(#[trigger] w.children[i]) == render(
            v.children[i],
        ) && w.children[i].key == v.children[i].key by {
            assert(render(vs[i]) == render(v.children[0 + i]));
        }
        lemma_members_equal(w, v, n);
    }
}

/// The parser reads a printable value back from its printed text, followed
/// by a byte that can continue no number: it ends just past the text and
/// gives a value that prints the same.
#[verifier::rlimit(100)]
#[verifier::spinoff_prover]
proof fn lemma_value_rt(v: Node, d: int, b: Seq<u8>, len: int, p: int)
    requires
        printable(v, d),
        0 <= d,
        0 <= p,
        p + printed_bytes(v).len() < len <= b.len(),
        b.subrange(p, p + printed_bytes(v).len() as int) == printed_bytes(v),
        !is_number_byte(b[p + printed_bytes(v).len()]),
    ensures
        value_at(b, len, p, d) matches Ok((w, e)) && e == p + printed_bytes(v).len() && render(w)
            == render(v),
    decreases v, v.children.len() + 2,
{
    let pv = printed_bytes(v);
    let r = render(v)->0;
    lemma_printable_renders(v, d);
    lemma_first_byte(r);
    assert(b[p] == pv[0]) by {
        assert(pv[0] == b.subrange(p, p + pv.len())[0]);
    }
    let x = b[p];
    if word_at(b, len, p, seq![110u8, 117u8, 108u8, 108u8]) {
        assert(b.subrange(p, p + 4)[0] == x);
    }
    if word_at(b, len, p, seq![102u8, 97u8, 108u8, 115u8, 101u8]) {
        assert(b.subrange(p, p + 5)[0] == x);
    }
    if word_at(b, len, p, seq![116u8, 114u8, 117u8, 101u8]) {
        assert(b.subrange(p, p + 4)[0] == x);
    }
    if v.kind == JsonKind::Null || v.kind == JsonKind::True || v.kind == JsonKind::False {
        lemma_ascii_encode(r);
        if v.kind == JsonKind::Null {
            assert(pv =~= seq![110u8, 117u8, 108u8, 108u8]);
        } else if v.kind == JsonKind::True {
            assert(pv =~= seq![116u8, 114u8, 117u8, 101u8]);
        } else {
            assert(pv =~= seq![102u8, 97u8, 108u8, 115u8, 101u8]);
        }
    } else if v.kind == JsonKind::String {
        law_string_round_trip(v.text->0, b, len, p);
    } else if v.kind == JsonKind::Number {
        lemma_number_text(v.number);
        lemma_ascii_encode(r);
        assert(pv =~= ascii_bytes(render_number(v.number)));
        law_number_round_trip(v.number, b, len, p);
    } else if v.kind == JsonKind::Array {
        lemma_array_rt(v, d, b, len, p);
    } else {
        lemma_object_rt(v, d, b, len, p);
    }
}

/// Printing and parsing back gives a tree that prints the same: for every
/// printable tree, the document made of its printed bytes parses, ends just
/// past them, and yields a tree whose printed text is the same. Kinds, texts,
/// keys and the order of members and elements all show in that text; numbers
/// agree in it up to how they are written.
pub proof fn law_round_trip(v: Node)
    requires
        printable(v, 0),
    ensures
        document(printed_bytes(v), printed_bytes(v).len() as int + 1, false) matches Ok((w, e)) && e
            == printed_bytes(v).len() && render(w) == render(v),
{
    let pv = printed_bytes(v);
    let b = pv.push(0u8);
    let len = pv.len() as int + 1;
    lemma_opens_not_ws(v, 0);
    assert(b.subrange(0, pv.len() as int) =~= pv);
    assert(b[0] == pv[0]);
    if word_at(b, len, 0, bom()) {
        assert(b.subrange(0, 3)[0] == b[0]);
    }
    assert(ws_end(b, len, 0) == 0);
    lemma_value_rt(v, 0, b, len, 0);
}

} // verus!
