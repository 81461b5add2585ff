use vstd::prelude::*;
use crate::number::render_number;
use crate::text::{push_char, chars_of, char_len, utf8_len, lemma_utf8_len_concat};
use crate::tree::{CJSON, Node, JsonKind, lemma_children};

verus! {

/// `\u00XX`-style escapes are written with lower-case hex digits.
pub open spec fn hex_digit(d: u32) -> char {
    if d < 10 {
        ((d + 48) as u8) as char
    } else {
        ((d + 87) as u8) as char
    }
}

/// Control characters: U+0000 to U+001F and U+007F to U+009F.
pub open spec fn is_control(c: char) -> bool {
    (c as u32) < 0x20 || (0x7f <= (c as u32) && (c as u32) <= 0x9f)
}

/// How one character of a string is written between the quotes.
pub open spec fn escape_char(c: char) -> Seq<char> {
    if c == '"' {
        seq!['\\', '"']
    } else if c == '\\' {
        seq!['\\', '\\']
    } else if c == '\x08' {
        seq!['\\', 'b']
    } else if c == '\x0c' {
        seq!['\\', 'f']
    } else if c == '\n' {
        seq!['\\', 'n']
    } else if c == '\r' {
        seq!['\\', 'r']
    } else if c == '\t' {
        seq!['\\', 't']
    } else if is_control(c) {
        seq!['\\', 'u', '0', '0', hex_digit((c as u32) / 16), hex_digit((c as u32) % 16)]
    } else {
        seq![c]
    }
}

pub open spec fn escape(s: Seq<char>) -> Seq<char>
    decreases s.len(),
{
    if s.len() == 0 {
        Seq::empty()
    } else {
        escape(s.drop_last()) + escape_char(s.last())
    }
}

/// A string literal: the escaped text between double quotes.
pub open spec fn quoted(s: Seq<char>) -> Seq<char> {
    seq!['"'] + escape(s) + seq!['"']
}

pub open spec fn comma() -> Seq<char> {
    seq![',', ' ']
}

pub open spec fn colon() -> Seq<char> {
    seq![':', ' ']
}

/// The text of a value; `None` where a string or raw value has no text, or
/// where the value or one inside it has no valid kind.
pub open spec fn render(v: Node) -> Option<Seq<char>>
    decreases v, v.children.len() + 1,
{
    match v.kind {
        JsonKind::Null => Some(seq!['n', 'u', 'l', 'l']),
        JsonKind::True => Some(seq!['t', 'r', 'u', 'e']),
        JsonKind::False => Some(seq!['f', 'a', 'l', 's', 'e']),
        JsonKind::Number => Some(render_number(v.number)),
        JsonKind::String => match v.text {
            Some(t) => Some(quoted(t)),
            None => None,
        },
        JsonKind::Raw => v.text,
        JsonKind::Array => match render_elements(v, v.children.len() as int) {
            Some(b) => Some(seq!['['] + b + seq![']']),
            None => None,
        },
        JsonKind::Object => match render_members(v, v.children.len() as int) {
            Some(b) => Some(seq!['{'] + b + seq!['}']),
            None => None,
        },
        JsonKind::Invalid => None,
    }
}

/// The first `k` elements of an array, each rendered, joined by `", "`.
pub open spec fn render_elements(v: Node, k: int) -> Option<Seq<char>>
    decreases v, k,
{
    if k <= 0 || k > v.children.len() {
        Some(Seq::empty())
    } else {
        match (render_elements(v, k - 1), render(v.children[k - 1])) {
            (Some(prev), Some(cur)) => Some(
                if k == 1 {
                    cur
                } else {
                    prev + comma() + cur
                },
            ),
            _ => None,
        }
    }
}

/// The first `k` members of an object that carry a key, each written as
/// `"key": value`, joined by `", "`.
pub open spec fn render_members(v: Node, k: int) -> Option<Seq<char>>
    decreases v, k,
{
    if k <= 0 || k > v.children.len() {
        Some(Seq::empty())
    } else {
        match v.children[k - 1].key {
            None => render_members(v, k - 1),
            Some(key) => match (render_members(v, k - 1), render(v.children[k - 1])) {
                (Some(prev), Some(cur)) => Some(
                    if prev.len() == 0 {
                        quoted(key) + colon() + cur
                    } else {
                        prev + comma() + quoted(key) + colon() + cur
                    },
                ),
                _ => None,
            },
        }
    }
}

/// Where text is printed. With `noalloc`, at most `length` bytes may be
/// written and `offset` counts the bytes written so far.
pub struct PrintBuffer {
    pub buffer: String,
    pub length: usize,
    pub offset: usize,
    pub noalloc: bool,
    pub format: bool,
}

impl PrintBuffer {
    pub open spec fn wf(&self) -> bool {
        self.noalloc ==> (self.offset == utf8_len(self.buffer@) && self.offset <= self.length)
    }

    /// Whether `s` can still be added.
    pub open spec fn fits(&self, s: Seq<char>) -> bool {
        !self.noalloc || self.offset + utf8_len(s) <= self.length
    }

    pub open spec fn same_mode(&self, other: &PrintBuffer) -> bool {
        self.noalloc == other.noalloc && self.length == other.length
    }

    /// An empty buffer without a ceiling.
    pub fn new() -> (r: PrintBuffer)
        ensures
            r.wf(),
            !r.noalloc,
            r.buffer@.len() == 0,
    {
        PrintBuffer { buffer: String::new(), length: 0, offset: 0, noalloc: false, format: false }
    }

    /// An empty buffer that takes at most `length` bytes.
    pub fn with_ceiling(length: usize) -> (r: PrintBuffer)
        ensures
            r.wf(),
            r.noalloc,
            r.length == length,
            r.offset == 0,
            r.buffer@.len() == 0,
    {
        let r = PrintBuffer {
            buffer: String::new(),
            length,
            offset: 0,
            noalloc: true,
            format: false,
        };
        assert(r.buffer@ =~= Seq::<char>::empty());
        r
    }
}

/// The result of printing `s` into `p`: it is added where it fits.
pub open spec fn printed(old_p: PrintBuffer, new_p: PrintBuffer, s: Option<Seq<char>>, r: bool) -> bool {
    &&& new_p.wf()
    &&& new_p.same_mode(&old_p)
    &&& r == (s is Some && old_p.fits(s->0))
    &&& r ==> new_p.buffer@ == old_p.buffer@ + s->0
}

fn char_bytes(c: char) -> (r: usize)
    ensures
        r == char_len(c),
{
    let u = c as u32;
    if u < 0x80 {
        1
    } else if u < 0x800 {
        2
    } else if u < 0x10000 {
        3
    } else {
        4
    }
}

/// Whether `required` more bytes may be written.
fn ensure_capacity(p: &PrintBuffer, required: usize) -> (r: bool)
    requires
        p.wf(),
    ensures
        r == (!p.noalloc || p.offset + required <= p.length),
{
    !p.noalloc || required <= p.length - p.offset
}

fn put(p: &mut PrintBuffer, c: char) -> (r: bool)
    requires
        old(p).wf(),
    ensures
        printed(*old(p), *final(p), Some(seq![c]), r),
{
    let n = char_bytes(c);
    proof {
        assert(seq![c].drop_last() =~= Seq::<char>::empty());
        reveal_with_fuel(utf8_len, 2);
        assert(utf8_len(seq![c]) == char_len(c));
    }
    if !ensure_capacity(p, n) {
        return false;
    }
    push_char(&mut p.buffer, c);
    if p.noalloc {
        p.offset = p.offset + n;
    }
    proof {
        assert(p.buffer@.drop_last() =~= old(p).buffer@);
        assert(p.buffer@ =~= old(p).buffer@ + seq![c]);
    }
    true
}

proof fn lemma_fits_concat(p: PrintBuffer, a: Seq<char>, b: Seq<char>)
    ensures
        p.fits(a + b) ==> p.fits(a),
        utf8_len(a + b) == utf8_len(a) + utf8_len(b),
{
    lemma_utf8_len_concat(a, b);
}

fn put_all(p: &mut PrintBuffer, cs: &Vec<char>) -> (r: bool)
    requires
        old(p).wf(),
    ensures
        printed(*old(p), *final(p), Some(cs@), r),
{
    let mut i: usize = 0;
    while i < cs.len()
        invariant
            i <= cs@.len(),
            old(p).wf(),
            p.wf(),
            p.same_mode(&*old(p)),
            p.buffer@ == old(p).buffer@ + cs@.subrange(0, i as int),
            old(p).fits(cs@.subrange(0, i as int)),
        decreases cs@.len() - i,
    {
        let ghost before = *p;
        let ok = put(p, cs[i]);
        proof {
            let pre = cs@.subrange(0, i as int);
            let next = cs@.subrange(0, i as int + 1);
            assert(next =~= pre + seq![cs@[i as int]]);
            lemma_utf8_len_concat(pre, seq![cs@[i as int]]);
            lemma_utf8_len_concat(old(p).buffer@, pre);
            assert(old(p).buffer@ + next =~= (old(p).buffer@ + pre) + seq![cs@[i as int]]);
            lemma_fits_concat(*old(p), next, cs@.subrange(i as int + 1, cs@.len() as int));
            assert(next + cs@.subrange(i as int + 1, cs@.len() as int) =~= cs@);
            if old(p).noalloc {
                assert(before.offset == utf8_len(old(p).buffer@) + utf8_len(pre));
                assert(ok == (before.offset + utf8_len(seq![cs@[i as int]]) <= before.length));
                assert(ok == old(p).fits(next));
            }
        }
        if !ok {
            return false;
        }
        i = i + 1;
        proof {
            assert(p.buffer@ =~= old(p).buffer@ + cs@.subrange(0, i as int));
        }
    }
    proof {
        assert(cs@.subrange(0, cs@.len() as int) =~= cs@);
    }
    true
}

fn hex_char(d: u32) -> (r: char)
    requires
        d < 16,
    ensures
        r == hex_digit(d),
{
    if d < 10 {
        ((d + 48) as u8) as char
    } else {
        ((d + 87) as u8) as char
    }
}

fn escape_one(c: char) -> (r: Vec<char>)
    ensures
        r@ == escape_char(c),
{
    let u = c as u32;
    let r = if c == '"' {
        vec!['\\', '"']
    } else if c == '\\' {
        vec!['\\', '\\']
    } else if c == '\x08' {
        vec!['\\', 'b']
    } else if c == '\x0c' {
        vec!['\\', 'f']
    } else if c == '\n' {
        vec!['\\', 'n']
    } else if c == '\r' {
        vec!['\\', 'r']
    } else if c == '\t' {
        vec!['\\', 't']
    } else if u < 0x20 || (0x7f <= u && u <= 0x9f) {
        vec!['\\', 'u', '0', '0', hex_char(u / 16), hex_char(u % 16)]
    } else {
        vec![c]
    };
    assert(r@ =~= escape_char(c));
    r
}

/// Prints `input` as a string literal: quoted, with `"`, `\`, and control
/// characters escaped.
pub fn print_string_ptr(input: &str, p: &mut PrintBuffer) -> (r: bool)
    requires
        old(p).wf(),
    ensures
        printed(*old(p), *final(p), Some(quoted(input@)), r),
{
    let cs = chars_of(input);
    let ghost whole = quoted(input@);
    let ghost rest = escape(input@) + seq!['"'];
    proof {
        assert(whole =~= seq!['"'] + rest);
        lemma_fits_concat(*old(p), seq!['"'], rest);
    }
    if !put(p, '"') {
        return false;
    }
    proof {
        assert(cs@.subrange(0, 0) =~= Seq::<char>::empty());
        assert(escape(Seq::<char>::empty()) =~= Seq::<char>::empty());
        assert(seq!['"'] + escape(cs@.subrange(0, 0)) =~= seq!['"']);
    }
    let mut i: usize = 0;
    while i < cs.len()
        invariant
            i <= cs@.len(),
            cs@ == input@,
            whole == quoted(input@),
            old(p).wf(),
            p.wf(),
            p.same_mode(&*old(p)),
            p.buffer@ == old(p).buffer@ + (seq!['"'] + escape(cs@.subrange(0, i as int))),
            old(p).fits(seq!['"'] + escape(cs@.subrange(0, i as int))),
        decreases cs@.len() - i,
    {
        let e = escape_one(cs[i]);
        let ghost before = *p;
        let ok = put_all(p, &e);
        proof {
            let pre = seq!['"'] + escape(cs@.subrange(0, i as int));
            let next = seq!['"'] + escape(cs@.subrange(0, i as int + 1));
            assert(cs@.subrange(0, i as int + 1).drop_last() =~= cs@.subrange(0, i as int));
            assert(next =~= pre + e@);
            lemma_utf8_len_concat(pre, e@);
            lemma_utf8_len_concat(old(p).buffer@, pre);
            assert(old(p).buffer@ + next =~= (old(p).buffer@ + pre) + e@);
            lemma_escape_prefix(cs@, i as int + 1);
            lemma_fits_concat(*old(p), next, escape_rest(cs@, i as int + 1));
            if old(p).noalloc {
                assert(before.offset == utf8_len(old(p).buffer@) + utf8_len(pre));
                assert(ok == old(p).fits(next));
            }
            assert(ok ==> p.buffer@ =~= old(p).buffer@ + next);
        }
        if !ok {
            return false;
        }
        i = i + 1;
        proof {
            assert(p.buffer@ =~= old(p).buffer@ + (seq!['"'] + escape(cs@.subrange(0, i as int))));
        }
    }
    proof {
        assert(cs@.subrange(0, cs@.len() as int) =~= cs@);
        let pre = seq!['"'] + escape(cs@);
        assert(whole =~= pre + seq!['"']);
        lemma_utf8_len_concat(pre, seq!['"']);
        lemma_utf8_len_concat(old(p).buffer@, pre);
    }
    let ghost before = *p;
    let ok = put(p, '"');
    proof {
        if old(p).noalloc {
            assert(before.offset == utf8_len(old(p).buffer@) + utf8_len(seq!['"'] + escape(cs@)));
            assert(ok == old(p).fits(whole));
        }
        assert(ok ==> p.buffer@ =~= old(p).buffer@ + whole);
    }
    ok
}

/// What follows the escape of the first `i` characters in the escape of `s`.
spec fn escape_rest(s: Seq<char>, i: int) -> Seq<char> {
    escape(s).subrange(escape(s.subrange(0, i)).len() as int, escape(s).len() as int) + seq!['"']
}

pub proof fn lemma_escape_concat(a: Seq<char>, b: Seq<char>)
    ensures
        escape(a + b) == escape(a) + escape(b),
    decreases b.len(),
{
    if b.len() == 0 {
        assert(a + b =~= a);
        assert(escape(a) + escape(b) =~= escape(a));
    } else {
        assert((a + b).drop_last() =~= a + b.drop_last());
        lemma_escape_concat(a, b.drop_last());
        assert((a + b).last() == b.last());
        assert(escape(a + b) =~= escape(a) + escape(b));
    }
}

proof fn lemma_escape_prefix(s: Seq<char>, i: int)
    requires
        0 <= i <= s.len(),
    ensures
        seq!['"'] + escape(s.subrange(0, i)) + escape_rest(s, i) == quoted(s),
{
    lemma_escape_concat(s.subrange(0, i), s.subrange(i, s.len() as int));
    assert(s.subrange(0, i) + s.subrange(i, s.len() as int) =~= s);
    assert(seq!['"'] + escape(s.subrange(0, i)) + escape_rest(s, i) =~= quoted(s));
}

/// Prints the text of a string value as a string literal; fails where it has none.
pub fn print_string(item: &CJSON, output_buffer: &mut PrintBuffer) -> (r: bool)
    requires
        old(output_buffer).wf(),
    ensures
        printed(
            *old(output_buffer),
            *final(output_buffer),
            match item@.text {
                Some(t) => Some(quoted(t)),
                None => None,
            },
            r,
        ),
{
    match &item.valuestring {
        Some(s) => print_string_ptr(s.as_str(), output_buffer),
        None => false,
    }
}

fn print_text(s: &String, p: &mut PrintBuffer) -> (r: bool)
    requires
        old(p).wf(),
    ensures
        printed(*old(p), *final(p), Some(s@), r),
{
    let cs = chars_of(s.as_str());
    put_all(p, &cs)
}

fn print_number(item: &CJSON, output_buffer: &mut PrintBuffer) -> (r: bool)
    requires
        old(output_buffer).wf(),
    ensures
        printed(*old(output_buffer), *final(output_buffer), Some(render_number(item@.number)), r),
{
    let mut text = String::new();
    item.number.render(&mut text);
    assert(text@ =~= render_number(item@.number));
    print_text(&text, output_buffer)
}

pub open spec fn is_prefix(a: Seq<char>, b: Seq<char>) -> bool {
    a.len() <= b.len() && b.subrange(0, a.len() as int) == a
}

/// What `[` + the elements + `]`, or `{` + the members + `}`, gives.
pub open spec fn enclosed(open: char, inner: Option<Seq<char>>, close: char) -> Option<Seq<char>> {
    match inner {
        Some(b) => Some(seq![open] + b + seq![close]),
        None => None,
    }
}

/// One piece printed after `done`: it went in exactly when `done` and the
/// piece fit together, and where it did not, no text that starts with both fits.
proof fn lemma_piece(
    old_p: PrintBuffer,
    before: PrintBuffer,
    done: Seq<char>,
    piece: Seq<char>,
    whole: Seq<char>,
    ok: bool,
)
    requires
        old_p.wf(),
        before.wf(),
        before.same_mode(&old_p),
        before.buffer@ == old_p.buffer@ + done,
        ok == before.fits(piece),
        is_prefix(done + piece, whole),
    ensures
        ok == old_p.fits(done + piece),
        !ok ==> !old_p.fits(whole),
{
    lemma_utf8_len_concat(old_p.buffer@, done);
    lemma_utf8_len_concat(done, piece);
    let dp = done + piece;
    let rest = whole.subrange(dp.len() as int, whole.len() as int);
    assert(dp + rest =~= whole);
    lemma_utf8_len_concat(dp, rest);
}

pub proof fn lemma_elements_prefix(v: Node, i: int, j: int)
    requires
        0 <= i <= j <= v.children.len(),
        render_elements(v, j) is Some,
    ensures
        render_elements(v, i) is Some,
        is_prefix(render_elements(v, i)->0, render_elements(v, j)->0),
    decreases j - i,
{
    if i < j {
        lemma_elements_prefix(v, i, j - 1);
        let a = render_elements(v, i)->0;
        let b = render_elements(v, j - 1)->0;
        let c = render_elements(v, j)->0;
        if j - 1 == 0 {
            assert(a.len() == 0);
            assert(c.subrange(0, 0) =~= a);
        } else {
            assert(c == b + comma() + render(v.children[j - 1])->0);
            assert(c.subrange(0, a.len() as int) =~= b.subrange(0, a.len() as int));
        }
    } else {
        let a = render_elements(v, i)->0;
        assert(a.subrange(0, a.len() as int) =~= a);
    }
}

pub proof fn lemma_members_prefix(v: Node, i: int, j: int)
    requires
        0 <= i <= j <= v.children.len(),
        render_members(v, j) is Some,
    ensures
        render_members(v, i) is Some,
        is_prefix(render_members(v, i)->0, render_members(v, j)->0),
    decreases j - i,
{
    if i < j {
        lemma_members_prefix(v, i, j - 1);
        let a = render_members(v, i)->0;
        let b = render_members(v, j - 1)->0;
        let c = render_members(v, j)->0;
        match v.children[j - 1].key {
            None => {},
            Some(key) => {
                if b.len() == 0 {
                    assert(a.len() == 0);
                    assert(c.subrange(0, 0) =~= a);
                } else {
                    assert(c == b + comma() + quoted(key) + colon() + render(v.children[j - 1])->0);
                    assert(c.subrange(0, a.len() as int) =~= b.subrange(0, a.len() as int));
                }
            },
        }
    } else {
        let a = render_members(v, i)->0;
        assert(a.subrange(0, a.len() as int) =~= a);
    }
}

proof fn lemma_prefix_trans(a: Seq<char>, b: Seq<char>, c: Seq<char>)
    requires
        is_prefix(a, b),
        is_prefix(b, c),
    ensures
        is_prefix(a, c),
{
    assert(c.subrange(0, a.len() as int) =~= b.subrange(0, a.len() as int));
}

proof fn lemma_prefix_extend(x: Seq<char>, a: Seq<char>, b: Seq<char>)
    requires
        is_prefix(a, b),
    ensures
        is_prefix(x + a, x + b),
{
    assert((x + b).subrange(0, (x + a).len() as int) =~= x + a);
}

proof fn lemma_prefix_concat(a: Seq<char>, b: Seq<char>)
    ensures
        is_prefix(a, a + b),
{
    assert((a + b).subrange(0, a.len() as int) =~= a);
}

fn print_array(item: &CJSON, p: &mut PrintBuffer) -> (r: bool)
    requires
        old(p).wf(),
    ensures
        printed(
            *old(p),
            *final(p),
            enclosed('[', render_elements(item@, item@.children.len() as int), ']'),
            r,
        ),
    decreases item, 0nat,
{
    let ghost v = item@;
    let ghost n = v.children.len() as int;
    let ghost whole = enclosed('[', render_elements(v, n), ']');
    proof {
        lemma_children(*item);
    }
    let ghost before = *p;
    let ok = put(p, '[');
    proof {
        if whole is Some {
            lemma_elements_prefix(v, 0, n);
            lemma_prefix_concat(seq!['['], render_elements(v, n)->0 + seq![']']);
            assert(seq!['['] + (render_elements(v, n)->0 + seq![']']) =~= whole->0);
            assert(Seq::<char>::empty() + seq!['['] =~= seq!['[']);
            lemma_piece(*old(p), before, Seq::empty(), seq!['['], whole->0, ok);
        } else {
            assert(Seq::<char>::empty() + seq!['['] =~= seq!['[']);
            assert(before.buffer@ =~= old(p).buffer@ + Seq::<char>::empty());
        }
    }
    if !ok {
        return false;
    }
    let mut i: usize = 0;
    while i < item.child.len()
        invariant
            i <= item.child@.len(),
            v == item@,
            n == v.children.len(),
            n == item.child@.len(),
            whole == enclosed('[', render_elements(v, n), ']'),
            forall|k: int| 0 <= k < n ==> #[trigger] v.children[k] == item.child@[k]@,
            old(p).wf(),
            p.wf(),
            p.same_mode(&*old(p)),
            render_elements(v, i as int) is Some,
            p.buffer@ == old(p).buffer@ + (seq!['['] + render_elements(v, i as int)->0),
            old(p).fits(seq!['['] + render_elements(v, i as int)->0),
        decreases item.child@.len() - i,
    {
        let ghost done = seq!['['] + render_elements(v, i as int)->0;
        let ghost done2 = done;
        if i > 0 {
            let sep = vec![',', ' '];
            let ghost before = *p;
            let ok = put_all(p, &sep);
            proof {
                assert(sep@ =~= comma());
                if whole is Some {
                    lemma_elements_prefix(v, i as int + 1, n);
                    let e1 = render_elements(v, i as int + 1)->0;
                    assert(e1 == render_elements(v, i as int)->0 + comma() + render(v.children[i as int])->0);
                    lemma_prefix_concat(render_elements(v, i as int)->0 + comma(), render(v.children[i as int])->0);
                    lemma_prefix_trans(render_elements(v, i as int)->0 + comma(), e1, render_elements(v, n)->0);
                    lemma_prefix_concat(render_elements(v, n)->0, seq![']']);
                    lemma_prefix_trans(render_elements(v, i as int)->0 + comma(), render_elements(v, n)->0, render_elements(v, n)->0 + seq![']']);
                    lemma_prefix_extend(seq!['['], render_elements(v, i as int)->0 + comma(), render_elements(v, n)->0 + seq![']']);
                    assert(seq!['['] + (render_elements(v, i as int)->0 + comma()) =~= done + comma());
                    assert(seq!['['] + (render_elements(v, n)->0 + seq![']']) =~= whole->0);
                    lemma_piece(*old(p), before, done, comma(), whole->0, ok);
                } else {
                    lemma_utf8_len_concat(old(p).buffer@, done);
                    lemma_utf8_len_concat(done, comma());
                    lemma_utf8_len_concat(before.buffer@, comma());
                }
            }
            if !ok {
                return false;
            }
            proof {
                done2 = done + comma();
            }
        }
        assert(p.buffer@ =~= old(p).buffer@ + done2);
        let ghost before = *p;
        let ok = print_value(&item.child[i], p);
        proof {
            let cur = render(v.children[i as int]);
            if whole is Some {
                lemma_elements_prefix(v, i as int + 1, n);
                let e1 = render_elements(v, i as int + 1)->0;
                assert(cur is Some);
                if i > 0 {
                    assert(e1 == render_elements(v, i as int)->0 + comma() + cur->0);
                    assert(done2 + cur->0 =~= seq!['['] + e1);
                } else {
                    assert(e1 == cur->0);
                    assert(done2 + cur->0 =~= seq!['['] + e1);
                }
                lemma_prefix_concat(render_elements(v, n)->0, seq![']']);
                lemma_prefix_trans(e1, render_elements(v, n)->0, render_elements(v, n)->0 + seq![']']);
                lemma_prefix_extend(seq!['['], e1, render_elements(v, n)->0 + seq![']']);
                assert(seq!['['] + (render_elements(v, n)->0 + seq![']']) =~= whole->0);
                lemma_piece(*old(p), before, done2, cur->0, whole->0, ok);
            } else if cur is Some {
                lemma_utf8_len_concat(old(p).buffer@, done2);
                lemma_utf8_len_concat(done2, cur->0);
                lemma_utf8_len_concat(before.buffer@, cur->0);
            }
            if ok {
                let e1 = render_elements(v, i as int + 1);
                assert(e1 is Some);
                if i > 0 {
                    assert(e1->0 == render_elements(v, i as int)->0 + comma() + cur->0);
                } else {
                    assert(e1->0 == cur->0);
                }
                assert(done2 + cur->0 =~= seq!['['] + e1->0);
                lemma_utf8_len_concat(old(p).buffer@, done2);
                lemma_utf8_len_concat(done2, cur->0);
                lemma_utf8_len_concat(before.buffer@, cur->0);
            }
        }
        if !ok {
            return false;
        }
        i = i + 1;
        proof {
            assert(p.buffer@ =~= old(p).buffer@ + (seq!['['] + render_elements(v, i as int)->0));
        }
    }
    let ghost done = seq!['['] + render_elements(v, n)->0;
    let ghost before = *p;
    let ok = put(p, ']');
    proof {
        assert(done + seq![']'] =~= whole->0);
        assert(whole->0.subrange(0, whole->0.len() as int) =~= whole->0);
        lemma_piece(*old(p), before, done, seq![']'], whole->0, ok);
        assert(ok ==> p.buffer@ =~= old(p).buffer@ + whole->0);
    }
    ok
}

#[verifier::rlimit(100)]
#[verifier::spinoff_prover]
fn print_object(item: &CJSON, p: &mut PrintBuffer) -> (r: bool)
    requires
        old(p).wf(),
    ensures
        printed(
            *old(p),
            *final(p),
            enclosed('{', render_members(item@, item@.children.len() as int), '}'),
            r,
        ),
    decreases item, 0nat,
{
    let ghost v = item@;
    let ghost n = v.children.len() as int;
    let ghost whole = enclosed('{', render_members(v, n), '}');
    proof {
        lemma_children(*item);
    }
    let ghost before = *p;
    let ok = put(p, '{');
    proof {
        assert(Seq::<char>::empty() + seq!['{'] =~= seq!['{']);
        if whole is Some {
            lemma_members_prefix(v, 0, n);
            lemma_prefix_concat(seq!['{'], render_members(v, n)->0 + seq!['}']);
            assert(seq!['{'] + (render_members(v, n)->0 + seq!['}']) =~= whole->0);
            lemma_piece(*old(p), before, Seq::empty(), seq!['{'], whole->0, ok);
        } else {
            assert(before.buffer@ =~= old(p).buffer@ + Seq::<char>::empty());
        }
    }
    if !ok {
        return false;
    }
    let mut first = true;
    let mut i: usize = 0;
    while i < item.child.len()
        invariant
            i <= item.child@.len(),
            v == item@,
            n == v.children.len(),
            n == item.child@.len(),
            whole == enclosed('{', render_members(v, n), '}'),
            forall|k: int| 0 <= k < n ==> #[trigger] v.children[k] == item.child@[k]@,
            old(p).wf(),
            p.wf(),
            p.same_mode(&*old(p)),
            render_members(v, i as int) is Some,
            first == (render_members(v, i as int)->0.len() == 0),
            p.buffer@ == old(p).buffer@ + (seq!['{'] + render_members(v, i as int)->0),
            old(p).fits(seq!['{'] + render_members(v, i as int)->0),
        decreases item.child@.len() - i,
    {
        let current = &item.child[i];
        match &current.string {
            None => {
                proof {
                    assert(render_members(v, i as int + 1) == render_members(v, i as int));
                }
            },
            Some(key) => {
                let ghost prev = render_members(v, i as int)->0;
                let ghost cur = render(v.children[i as int]);
                let ghost e1 = render_members(v, i as int + 1);
                let ghost lead = if first {
                    seq!['{']
                } else {
                    seq!['{'] + prev + comma()
                };
                let ghost entry_done = lead + quoted(key@) + colon();
                proof {
                    if whole is Some {
                        lemma_members_prefix(v, i as int + 1, n);
                        lemma_prefix_concat(render_members(v, n)->0, seq!['}']);
                        lemma_prefix_trans(e1->0, render_members(v, n)->0, render_members(v, n)->0 + seq!['}']);
                        lemma_prefix_extend(seq!['{'], e1->0, render_members(v, n)->0 + seq!['}']);
                        assert(seq!['{'] + (render_members(v, n)->0 + seq!['}']) =~= whole->0);
                        assert(cur is Some);
                        if first {
                            assert(e1->0 == quoted(key@) + colon() + cur->0);
                        } else {
                            assert(e1->0 == prev + comma() + quoted(key@) + colon() + cur->0);
                        }
                        assert(entry_done + cur->0 =~= seq!['{'] + e1->0);
                    }
                }
                if !first {
                    let sep = vec![',', ' '];
                    let ghost before = *p;
                    let ok = put_all(p, &sep);
                    proof {
                        assert(sep@ =~= comma());
                        let done = seq!['{'] + prev;
                        if whole is Some {
                            let target = seq!['{'] + e1->0;
                            lemma_prefix_concat(done + comma(), quoted(key@) + colon() + cur->0);
                            assert(done + comma() + (quoted(key@) + colon() + cur->0) =~= target);
                            lemma_prefix_trans(done + comma(), target, whole->0);
                            lemma_piece(*old(p), before, done, comma(), whole->0, ok);
                        } else {
                            lemma_utf8_len_concat(old(p).buffer@, done);
                            lemma_utf8_len_concat(done, comma());
                            lemma_utf8_len_concat(before.buffer@, comma());
                        }
                        assert(ok ==> p.buffer@ =~= old(p).buffer@ + lead);
                    }
                    if !ok {
                        return false;
                    }
                }
                assert(p.buffer@ =~= old(p).buffer@ + lead);
                let ghost before = *p;
                let ok = print_string_ptr(key.as_str(), p);
                proof {
                    if whole is Some {
                        let target = seq!['{'] + e1->0;
                        lemma_prefix_concat(lead + quoted(key@), colon() + cur->0);
                        assert(lead + quoted(key@) + (colon() + cur->0) =~= target);
                        lemma_prefix_trans(lead + quoted(key@), target, whole->0);
                        lemma_piece(*old(p), before, lead, quoted(key@), whole->0, ok);
                    } else {
                        lemma_utf8_len_concat(old(p).buffer@, lead);
                        lemma_utf8_len_concat(lead, quoted(key@));
                        lemma_utf8_len_concat(before.buffer@, quoted(key@));
                    }
                    assert(ok ==> p.buffer@ =~= old(p).buffer@ + (lead + quoted(key@)));
                }
                if !ok {
                    return false;
                }
                let sep = vec![':', ' '];
                let ghost before = *p;
                let ok = put_all(p, &sep);
                proof {
                    assert(sep@ =~= colon());
                    let done = lead + quoted(key@);
                    if whole is Some {
                        let target = seq!['{'] + e1->0;
                        lemma_prefix_concat(done + colon(), cur->0);
                        lemma_prefix_trans(done + colon(), target, whole->0);
                        lemma_piece(*old(p), before, done, colon(), whole->0, ok);
                    } else {
                        lemma_utf8_len_concat(old(p).buffer@, done);
                        lemma_utf8_len_concat(done, colon());
                        lemma_utf8_len_concat(before.buffer@, colon());
                    }
                    assert(ok ==> p.buffer@ =~= old(p).buffer@ + entry_done);
                }
                if !ok {
                    return false;
                }
                let ghost before = *p;
                let ok = print_value(current, p);
                proof {
                    if whole is Some {
                        let target = seq!['{'] + e1->0;
                        assert(target.subrange(0, target.len() as int) =~= target);
                        lemma_prefix_trans(target, target, whole->0);
                        lemma_piece(*old(p), before, entry_done, cur->0, whole->0, ok);
                    } else if cur is Some {
                        lemma_utf8_len_concat(old(p).buffer@, entry_done);
                        lemma_utf8_len_concat(entry_done, cur->0);
                        lemma_utf8_len_concat(before.buffer@, cur->0);
                    }
                    if ok {
                        if first {
                            assert(e1->0 == quoted(key@) + colon() + cur->0);
                        } else {
                            assert(e1->0 == prev + comma() + quoted(key@) + colon() + cur->0);
                        }
                        assert(entry_done + cur->0 =~= seq!['{'] + e1->0);
                        lemma_utf8_len_concat(old(p).buffer@, entry_done);
                        lemma_utf8_len_concat(entry_done, cur->0);
                        lemma_utf8_len_concat(before.buffer@, cur->0);
                        assert(p.buffer@ =~= old(p).buffer@ + (seq!['{'] + e1->0));
                    }
                }
                if !ok {
                    return false;
                }
                first = false;
            },
        }
        i = i + 1;
    }
    let ghost done = seq!['{'] + render_members(v, n)->0;
    let ghost before = *p;
    let ok = put(p, '}');
    proof {
        assert(done + seq!['}'] =~= whole->0);
        assert(whole->0.subrange(0, whole->0.len() as int) =~= whole->0);
        lemma_piece(*old(p), before, done, seq!['}'], whole->0, ok);
        assert(ok ==> p.buffer@ =~= old(p).buffer@ + whole->0);
    }
    ok
}

fn put_word(p: &mut PrintBuffer, w: Vec<char>) -> (r: bool)
    requires
        old(p).wf(),
    ensures
        printed(*old(p), *final(p), Some(w@), r),
{
    put_all(p, &w)
}

/// Prints `item` and everything it holds into `output_buffer`.
pub fn print_value(item: &CJSON, output_buffer: &mut PrintBuffer) -> (r: bool)
    requires
        old(output_buffer).wf(),
    ensures
        printed(*old(output_buffer), *final(output_buffer), render(item@), r),
    decreases item, 1nat,
{
    let ghost v = item@;
    match item.item_type {
        JsonKind::Null => {
            let w = vec!['n', 'u', 'l', 'l'];
            assert(w@ =~= seq!['n', 'u', 'l', 'l']);
            put_word(output_buffer, w)
        },
        JsonKind::True => {
            let w = vec!['t', 'r', 'u', 'e'];
            assert(w@ =~= seq!['t', 'r', 'u', 'e']);
            put_word(output_buffer, w)
        },
        JsonKind::False => {
            let w = vec!['f', 'a', 'l', 's', 'e'];
            assert(w@ =~= seq!['f', 'a', 'l', 's', 'e']);
            put_word(output_buffer, w)
        },
        JsonKind::Number => print_number(item, output_buffer),
        JsonKind::String => print_string(item, output_buffer),
        JsonKind::Raw => match &item.valuestring {
            Some(s) => print_text(s, output_buffer),
            None => false,
        },
        JsonKind::Array => print_array(item, output_buffer),
        JsonKind::Object => print_object(item, output_buffer),
        JsonKind::Invalid => false,
    }
}

/// The text of `item`; `None` where some value in it cannot be printed.
pub fn cjson_print(item: &CJSON) -> (r: Option<String>)
    ensures
        r is Some <==> render(item@) is Some,
        r matches Some(s) ==> s@ == render(item@)->0,
{
    let mut p = PrintBuffer::new();
    if print_value(item, &mut p) {
        assert(p.buffer@ =~= render(item@)->0);
        Some(p.buffer)
    } else {
        None
    }
}

/// Whether the text of `v` can be printed within a ceiling of `length` bytes.
pub open spec fn fits_ceiling(v: Node, length: int) -> bool {
    length > 0 && render(v) is Some && utf8_len(render(v)->0) <= length
}

/// Prints `item` into `buffer` using at most `length` bytes. Succeeds
/// exactly when `length` is not zero and the whole text fits; the buffer
/// then holds the text, and otherwise is not to be used.
pub fn cjson_print_preallocated(item: &CJSON, buffer: &mut String, length: usize, format: bool) -> (r: bool)
    ensures
        r == fits_ceiling(item@, length as int),
        r ==> final(buffer)@ == render(item@)->0,
{
    if length == 0 {
        return false;
    }
    let mut p = PrintBuffer::with_ceiling(length);
    p.format = format;
    let ok = print_value(item, &mut p);
    proof {
        assert(p.buffer@.len() == 0 ==> p.buffer@ =~= Seq::<char>::empty());
        assert(Seq::<char>::empty() + render(item@)->0 =~= render(item@)->0);
        reveal_with_fuel(utf8_len, 1);
    }
    if ok {
        *buffer = p.buffer;
    }
    ok
}

} // verus!
