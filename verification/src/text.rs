//! Text as sequences of characters: lengths, comparisons, decimal numbers and lines.

use vstd::prelude::*;
use vstd::utf8::*;

verus! {

broadcast use vstd::string::group_string_axioms;

/// `String::push` appends the character at the end of the string and keeps what was there.
pub assume_specification[ std::string::String::push ](s: &mut std::string::String, c: char)
    ensures
        final(s)@ == old(s)@.push(c),
;

// ---------------------------------------------------------------------------
// Lengths in bytes
// ---------------------------------------------------------------------------

/// The number of bytes of the UTF-8 form of `s`.
pub open spec fn utf8_len(s: Seq<char>) -> nat {
    encode_utf8(s).len()
}

/// The number of bytes that one character takes in UTF-8.
pub open spec fn char_width(c: char) -> nat {
    encode_scalar(c as u32).len()
}

/// The UTF-8 form of a concatenation is the concatenation of the UTF-8 forms.
pub proof fn lemma_encode_concat(a: Seq<char>, b: Seq<char>)
    ensures
        encode_utf8(a + b) == encode_utf8(a) + encode_utf8(b),
        utf8_len(a + b) == utf8_len(a) + utf8_len(b),
    decreases a.len(),
{
    if a.len() == 0 {
        assert(a + b =~= b);
        assert(encode_utf8(a) =~= Seq::<u8>::empty());
        assert(encode_utf8(a) + encode_utf8(b) =~= encode_utf8(b));
    } else {
        lemma_encode_concat(a.drop_first(), b);
        assert((a + b).drop_first() =~= a.drop_first() + b);
        assert((a + b)[0] == a[0]);
        assert(encode_utf8(a + b) =~= encode_utf8(a) + encode_utf8(b));
    }
}

pub proof fn lemma_utf8_len_push(s: Seq<char>, c: char)
    ensures
        utf8_len(s.push(c)) == utf8_len(s) + char_width(c),
        1 <= char_width(c) <= 4,
{
    let one = seq![c];
    assert(s.push(c) =~= s + one);
    lemma_encode_concat(s, one);
    reveal_with_fuel(encode_utf8, 2);
    assert(one.drop_first() =~= Seq::<char>::empty());
}

/// Cutting a text short cannot make it longer in bytes.
pub proof fn lemma_utf8_len_take(s: Seq<char>, i: int, j: int)
    requires
        0 <= i <= j <= s.len(),
    ensures
        utf8_len(s.take(i)) <= utf8_len(s.take(j)) <= utf8_len(s),
        i < j ==> utf8_len(s.take(i)) < utf8_len(s.take(j)),
        utf8_len(s.take(s.len() as int)) == utf8_len(s),
    decreases s.len() - i, s.len() - j,
{
    assert(s.take(s.len() as int) =~= s);
    if i < j {
        assert(s.take(i + 1) =~= s.take(i).push(s[i]));
        lemma_utf8_len_push(s.take(i), s[i]);
        lemma_utf8_len_take(s, i + 1, j);
    } else if i < s.len() {
        lemma_utf8_len_take(s, i, s.len() as int);
    }
}

/// The number of bytes of `s`.
pub fn byte_len(s: &str) -> (n: usize)
    ensures
        n == utf8_len(s@),
{
    s.as_bytes().len()
}

/// The number of bytes of one character.
pub fn width_of(c: char) -> (n: usize)
    ensures
        n == char_width(c),
        1 <= n <= 4,
{
    let v: u32 = c as u32;
    if v <= 0x7f {
        1
    } else if v <= 0x7ff {
        2
    } else if v <= 0xffff {
        3
    } else {
        4
    }
}

// ---------------------------------------------------------------------------
// Characters
// ---------------------------------------------------------------------------

/// The characters with the Unicode property White_Space.
pub open spec fn white_space(c: char) -> bool {
    let v = c as u32;
    ||| 0x09 <= v <= 0x0d
    ||| v == 0x20
    ||| v == 0x85
    ||| v == 0xa0
    ||| v == 0x1680
    ||| 0x2000 <= v <= 0x200a
    ||| v == 0x2028
    ||| v == 0x2029
    ||| v == 0x202f
    ||| v == 0x205f
    ||| v == 0x3000
}

/// Whether `c` has the Unicode property White_Space.
pub fn is_white_space(c: char) -> (b: bool)
    ensures
        b == white_space(c),
{
    let v: u32 = c as u32;
    (0x09 <= v && v <= 0x0d) || v == 0x20 || v == 0x85 || v == 0xa0 || v == 0x1680 || (0x2000 <= v
        && v <= 0x200a) || v == 0x2028 || v == 0x2029 || v == 0x202f || v == 0x205f || v == 0x3000
}

/// The characters of `s`.
pub fn to_chars(s: &str) -> (v: Vec<char>)
    ensures
        v@ == s@,
{
    let mut v: Vec<char> = Vec::new();
    for c in it: s.chars()
        invariant
            it.seq() == s@,
            v@ == it.seq().take(it.index()),
    {
        v.push(c);
    }
    v
}

/// Appends the characters `from..to` of `chars` to `out`.
pub fn push_chars(out: &mut String, chars: &Vec<char>, from: usize, to: usize)
    requires
        from <= to <= chars@.len(),
    ensures
        final(out)@ == old(out)@ + chars@.subrange(from as int, to as int),
{
    let ghost before = out@;
    let mut i: usize = from;
    assert(before =~= before + chars@.subrange(from as int, from as int));
    while i < to
        invariant
            from <= i <= to <= chars@.len(),
            out@ == before + chars@.subrange(from as int, i as int),
        decreases to - i,
    {
        out.push(chars[i]);
        assert(chars@.subrange(from as int, i + 1) =~= chars@.subrange(from as int, i as int).push(
            chars@[i as int],
        ));
        assert(out@ =~= before + chars@.subrange(from as int, i + 1));
        i = i + 1;
    }
}

/// The text made of the characters `from..to` of `chars`.
pub fn text_of(chars: &Vec<char>, from: usize, to: usize) -> (s: String)
    requires
        from <= to <= chars@.len(),
    ensures
        s@ == chars@.subrange(from as int, to as int),
{
    let mut s = String::new();
    push_chars(&mut s, chars, from, to);
    s
}

// ---------------------------------------------------------------------------
// Comparing texts
// ---------------------------------------------------------------------------

/// Whether `a` and `b` are the same text.
pub fn same_text(a: &str, b: &str) -> (r: bool)
    ensures
        r == (a@ == b@),
{
    let x = a.as_bytes();
    let y = b.as_bytes();
    proof {
        encode_utf8_decode_utf8(a@);
        encode_utf8_decode_utf8(b@);
    }
    if x.len() != y.len() {
        return false;
    }
    let mut i: usize = 0;
    while i < x.len()
        invariant
            x@ == encode_utf8(a@),
            y@ == encode_utf8(b@),
            x@.len() == y@.len(),
            i <= x@.len(),
            forall|k: int| 0 <= k < i ==> x@[k] == y@[k],
        decreases x@.len() - i,
    {
        if x[i] != y[i] {
            return false;
        }
        i = i + 1;
    }
    assert(x@ =~= y@);
    true
}

/// Whether `s` begins with `prefix`.
pub fn starts_with(s: &str, prefix: &str) -> (r: bool)
    ensures
        r == prefix@.is_prefix_of(s@),
{
    let a = to_chars(s);
    let p = to_chars(prefix);
    matches_at(&a, &p, 0)
}

/// Whether `needle` stands in `hay` at position `at`.
pub open spec fn stands_at(hay: Seq<char>, needle: Seq<char>, at: int) -> bool {
    0 <= at && at + needle.len() <= hay.len() && hay.subrange(at, at + needle.len()) == needle
}

/// Whether `needle` stands anywhere in `hay`.
pub open spec fn contains_text(hay: Seq<char>, needle: Seq<char>) -> bool {
    exists|at: int| stands_at(hay, needle, at)
}

fn matches_at(hay: &Vec<char>, needle: &Vec<char>, at: usize) -> (r: bool)
    ensures
        r == stands_at(hay@, needle@, at as int),
        at == 0 ==> r == needle@.is_prefix_of(hay@),
{
    if hay.len() < at || hay.len() - at < needle.len() {
        return false;
    }
    let mut i: usize = 0;
    while i < needle.len()
        invariant
            at + needle@.len() <= hay.len(),
            i <= needle@.len(),
            forall|k: int| 0 <= k < i ==> hay@[at + k] == needle@[k],
        decreases needle@.len() - i,
    {
        if hay[at + i] != needle[i] {
            assert(hay@.subrange(at as int, at + needle@.len())[i as int] != needle@[i as int]);
            return false;
        }
        i = i + 1;
    }
    assert(hay@.subrange(at as int, at + needle@.len()) =~= needle@);
    true
}

/// Whether `needle` stands anywhere in `hay`.
pub fn contains(hay: &str, needle: &str) -> (r: bool)
    ensures
        r == contains_text(hay@, needle@),
{
    let a = to_chars(hay);
    let n = to_chars(needle);
    let mut at: usize = 0;
    while at < a.len()
        invariant
            a@ == hay@,
            n@ == needle@,
            at <= a@.len(),
            forall|k: int| 0 <= k < at ==> !stands_at(a@, n@, k),
        decreases a@.len() - at,
    {
        if matches_at(&a, &n, at) {
            return true;
        }
        at = at + 1;
    }
    matches_at(&a, &n, at)
}

/// The lower-case form of an ASCII letter; any other character as it is.
pub open spec fn ascii_lower(c: char) -> char {
    if 'A' <= c <= 'Z' {
        (c as u32 + 32) as char
    } else {
        c
    }
}

/// Whether two texts are equal up to the case of ASCII letters.
pub open spec fn same_ignoring_ascii_case(a: Seq<char>, b: Seq<char>) -> bool {
    a.len() == b.len() && forall|i: int|
        0 <= i < a.len() ==> ascii_lower(#[trigger] a[i]) == ascii_lower(b[i])
}

fn same_letter(a: char, b: char) -> (r: bool)
    ensures
        r == (ascii_lower(a) == ascii_lower(b)),
{
    let x: u32 = a as u32;
    let y: u32 = b as u32;
    let lx: u32 = if 0x41 <= x && x <= 0x5a {
        x + 32
    } else {
        x
    };
    let ly: u32 = if 0x41 <= y && y <= 0x5a {
        y + 32
    } else {
        y
    };
    assert(lx == ascii_lower(a) as u32);
    assert(ly == ascii_lower(b) as u32);
    lx == ly
}

/// Whether two texts are equal up to the case of ASCII letters.
pub fn eq_ignore_ascii_case(a: &str, b: &str) -> (r: bool)
    ensures
        r == same_ignoring_ascii_case(a@, b@),
{
    let x = to_chars(a);
    let y = to_chars(b);
    if x.len() != y.len() {
        return false;
    }
    let mut i: usize = 0;
    while i < x.len()
        invariant
            x@ == a@,
            y@ == b@,
            x@.len() == y@.len(),
            i <= x@.len(),
            forall|k: int|
                0 <= k < i ==> ascii_lower(#[trigger] a@[k]) == ascii_lower(b@[k]),
        decreases x@.len() - i,
    {
        if !same_letter(x[i], y[i]) {
            assert(ascii_lower(a@[i as int]) != ascii_lower(b@[i as int]));
            return false;
        }
        i = i + 1;
    }
    true
}

/// The order of texts by code points, which is also the order of their UTF-8 bytes: whether
/// `a` stands before `b` or is equal to it.
pub open spec fn text_le(a: Seq<char>, b: Seq<char>) -> bool
    decreases a.len(),
{
    if a.len() == 0 {
        true
    } else if b.len() == 0 {
        false
    } else if a[0] == b[0] {
        text_le(a.drop_first(), b.drop_first())
    } else {
        a[0] < b[0]
    }
}

/// `text_le` is a total order.
pub proof fn lemma_text_le_total(a: Seq<char>, b: Seq<char>)
    ensures
        text_le(a, b) || text_le(b, a),
        text_le(a, b) && text_le(b, a) ==> a == b,
    decreases a.len(),
{
    if a.len() > 0 && b.len() > 0 {
        lemma_text_le_total(a.drop_first(), b.drop_first());
        if text_le(a, b) && text_le(b, a) {
            assert(a =~= seq![a[0]] + a.drop_first());
            assert(b =~= seq![b[0]] + b.drop_first());
        }
    } else if text_le(a, b) && text_le(b, a) {
        assert(a =~= b);
    }
}

pub proof fn lemma_text_le_transitive(a: Seq<char>, b: Seq<char>, c: Seq<char>)
    requires
        text_le(a, b),
        text_le(b, c),
    ensures
        text_le(a, c),
    decreases a.len(),
{
    if a.len() > 0 && b.len() > 0 && c.len() > 0 {
        if a[0] == b[0] && b[0] == c[0] {
            lemma_text_le_transitive(a.drop_first(), b.drop_first(), c.drop_first());
        }
    }
}

fn char_before(a: char, b: char) -> (r: bool)
    ensures
        r == (a < b),
{
    (a as u32) < (b as u32)
}

/// Whether `a` stands before `b` in the order of code points, or is equal to it.
pub fn not_after(a: &str, b: &str) -> (r: bool)
    ensures
        r == text_le(a@, b@),
{
    let x = to_chars(a);
    let y = to_chars(b);
    let mut i: usize = 0;
    assert(x@.skip(0) =~= x@);
    assert(y@.skip(0) =~= y@);
    while i < x.len()
        invariant
            x@ == a@,
            y@ == b@,
            i <= x@.len(),
            i <= y@.len(),
            text_le(a@, b@) == text_le(x@.skip(i as int), y@.skip(i as int)),
        decreases x@.len() - i,
    {
        assert(x@.skip(i as int)[0] == x@[i as int]);
        if i >= y.len() {
            return false;
        }
        assert(y@.skip(i as int)[0] == y@[i as int]);
        if x[i] != y[i] {
            return char_before(x[i], y[i]);
        }
        assert(x@.skip(i as int).drop_first() =~= x@.skip(i + 1));
        assert(y@.skip(i as int).drop_first() =~= y@.skip(i + 1));
        i = i + 1;
    }
    true
}

// ---------------------------------------------------------------------------
// Decimal numbers
// ---------------------------------------------------------------------------

/// The digit for `d`, where `d` is below ten.
pub open spec fn digit(d: nat) -> char {
    (0x30 + d) as char
}

/// The decimal form of `n`, without leading zeros.
pub open spec fn decimal(n: nat) -> Seq<char>
    decreases n,
{
    if n < 10 {
        seq![digit(n)]
    } else {
        decimal(n / 10).push(digit(n % 10))
    }
}

/// The decimal form of `n`.
pub fn decimal_text(n: u64) -> (s: String)
    ensures
        s@ == decimal(n as nat),
    decreases n,
{
    let mut s = if n < 10 {
        String::new()
    } else {
        decimal_text(n / 10)
    };
    let d: u8 = (n % 10) as u8;
    let c: char = (0x30 + d) as char;
    s.push(c);
    assert(s@ =~= decimal(n as nat));
    s
}

/// Every character of a decimal form is a digit, and there is at least one.
pub proof fn lemma_decimal_digits(n: nat)
    ensures
        decimal(n).len() >= 1,
        forall|i: int| 0 <= i < decimal(n).len() ==> '0' <= #[trigger] decimal(n)[i] <= '9',
    decreases n,
{
    if n >= 10 {
        lemma_decimal_digits(n / 10);
    }
}

/// Different numbers have different decimal forms.
pub proof fn lemma_decimal_injective(a: nat, b: nat)
    requires
        decimal(a) == decimal(b),
    ensures
        a == b,
    decreases a,
{
    lemma_decimal_digits(a / 10);
    lemma_decimal_digits(b / 10);
    assert(decimal(a).last() == digit(a % 10));
    assert(decimal(b).last() == digit(b % 10));
    assert(digit(a % 10) as nat == 0x30 + a % 10);
    assert(digit(b % 10) as nat == 0x30 + b % 10);
    if a >= 10 && b >= 10 {
        assert(decimal(a).drop_last() =~= decimal(a / 10));
        assert(decimal(b).drop_last() =~= decimal(b / 10));
        lemma_decimal_injective(a / 10, b / 10);
    }
}

// ---------------------------------------------------------------------------
// Joining
// ---------------------------------------------------------------------------

/// The parts one after another, with `sep` between neighbours.
pub open spec fn join(parts: Seq<Seq<char>>, sep: Seq<char>) -> Seq<char>
    decreases parts.len(),
{
    if parts.len() == 0 {
        Seq::empty()
    } else if parts.len() == 1 {
        parts[0]
    } else {
        join(parts.drop_last(), sep) + sep + parts.last()
    }
}

/// What each of some strings holds.
pub open spec fn texts_view(parts: Seq<String>) -> Seq<Seq<char>> {
    parts.map_values(|s: String| s@)
}

pub proof fn lemma_texts_view_push(parts: Seq<String>, s: String)
    ensures
        texts_view(parts.push(s)) == texts_view(parts).push(s@),
{
    assert(texts_view(parts.push(s)) =~= texts_view(parts).push(s@));
}

/// Joining with one more part.
pub proof fn lemma_join_push(parts: Seq<Seq<char>>, last: Seq<char>, sep: Seq<char>)
    ensures
        join(parts.push(last), sep) == if parts.len() == 0 {
            last
        } else {
            join(parts, sep) + sep + last
        },
{
    assert(parts.push(last).drop_last() =~= parts);
}

/// Joining from the front.
pub proof fn lemma_join_front(parts: Seq<Seq<char>>, sep: Seq<char>)
    requires
        parts.len() > 0,
    ensures
        join(parts, sep) == if parts.len() == 1 {
            parts[0]
        } else {
            parts[0] + (sep + join(parts.drop_first(), sep))
        },
    decreases parts.len(),
{
    if parts.len() > 1 {
        let front = parts.drop_last();
        lemma_join_front(front, sep);
        assert(parts.drop_first().drop_last() =~= front.drop_first());
        if parts.len() == 2 {
            assert(join(front, sep) == parts[0]);
            assert(join(parts.drop_first(), sep) == parts[1]);
            assert(join(parts, sep) =~= parts[0] + (sep + parts[1]));
        } else {
            let inner = join(front.drop_first(), sep);
            assert(join(parts.drop_first(), sep) == inner + sep + parts.last());
            assert(join(parts, sep) =~= parts[0] + (sep + (inner + sep + parts.last())));
        }
    }
}

/// The parts one after another, with `sep` between neighbours.
pub fn join_texts(parts: &Vec<String>, sep: &str) -> (r: String)
    ensures
        r@ == join(texts_view(parts@), sep@),
{
    let mut out = String::new();
    let mut i: usize = 0;
    while i < parts.len()
        invariant
            i <= parts@.len(),
            out@ == join(texts_view(parts@).take(i as int), sep@),
        decreases parts@.len() - i,
    {
        let ghost before = texts_view(parts@).take(i as int);
        proof {
            lemma_join_push(before, parts@[i as int]@, sep@);
            assert(texts_view(parts@).take(i + 1) =~= before.push(parts@[i as int]@));
        }
        if i > 0 {
            out.append(sep);
        }
        out.append(parts[i].as_str());
        assert(i == 0 ==> out@ =~= parts@[0]@);
        i = i + 1;
    }
    assert(texts_view(parts@).take(i as int) =~= texts_view(parts@));
    out
}

/// A text has at least one byte for each character.
pub proof fn lemma_utf8_len_bound(s: Seq<char>)
    ensures
        utf8_len(s) >= s.len(),
    decreases s.len(),
{
    if s.len() > 0 {
        lemma_utf8_len_bound(s.drop_last());
        lemma_utf8_len_push(s.drop_last(), s.last());
        assert(s =~= s.drop_last().push(s.last()));
    }
}

proof fn lemma_ascii_width(c: char)
    requires
        c <= '\u{7f}',
    ensures
        char_width(c) == 1,
{
}

/// An ASCII text has one byte for each character.
pub proof fn lemma_ascii_bytes(s: Seq<char>)
    requires
        forall|i: int| 0 <= i < s.len() ==> #[trigger] s[i] <= '\u{7f}',
    ensures
        utf8_len(s) == s.len(),
    decreases s.len(),
{
    if s.len() > 0 {
        lemma_ascii_bytes(s.drop_last());
        lemma_utf8_len_push(s.drop_last(), s.last());
        assert(s =~= s.drop_last().push(s.last()));
        assert(s[s.len() - 1] <= '\u{7f}');
        lemma_ascii_width(s.last());
    } else {
        assert(encode_utf8(s).len() == 0);
    }
}

/// The bytes of a text beyond one for each character.
pub open spec fn extra_bytes(s: Seq<char>) -> int {
    utf8_len(s) - s.len()
}

/// The bytes of some parts beyond one for each character.
pub open spec fn extra_weight(parts: Seq<Seq<char>>) -> int
    decreases parts.len(),
{
    if parts.len() == 0 {
        0
    } else {
        extra_weight(parts.drop_last()) + extra_bytes(parts.last())
    }
}

pub proof fn lemma_extra_weight_concat(a: Seq<Seq<char>>, b: Seq<Seq<char>>)
    ensures
        extra_weight(a + b) == extra_weight(a) + extra_weight(b),
        extra_weight(b) >= 0,
    decreases b.len(),
{
    if b.len() == 0 {
        assert(a + b =~= a);
    } else {
        assert((a + b).drop_last() =~= a + b.drop_last());
        lemma_extra_weight_concat(a, b.drop_last());
        lemma_utf8_len_bound(b.last());
    }
}

/// Joining by line feeds adds no bytes beyond one for each character.
pub proof fn lemma_join_extra(parts: Seq<Seq<char>>)
    ensures
        extra_bytes(join(parts, seq!['\n'])) == extra_weight(parts),
    decreases parts.len(),
{
    lemma_ascii_byte('\n');
    if parts.len() == 0 {
        assert(encode_utf8(Seq::<char>::empty()).len() == 0);
    } else if parts.len() == 1 {
        assert(extra_weight(parts.drop_last()) == 0);
    } else {
        let before = join(parts.drop_last(), seq!['\n']);
        lemma_join_extra(parts.drop_last());
        lemma_encode_concat(before, seq!['\n']);
        lemma_encode_concat(before + seq!['\n'], parts.last());
    }
}

/// The bytes of some parts, and one more for each of them.
pub open spec fn byte_weight(parts: Seq<Seq<char>>) -> nat
    decreases parts.len(),
{
    if parts.len() == 0 {
        0
    } else {
        byte_weight(parts.drop_last()) + utf8_len(parts.last()) + 1
    }
}

pub proof fn lemma_byte_weight_push(parts: Seq<Seq<char>>, part: Seq<char>)
    ensures
        byte_weight(parts.push(part)) == byte_weight(parts) + utf8_len(part) + 1,
{
    assert(parts.push(part).drop_last() =~= parts);
}

/// An ASCII character takes one byte.
pub proof fn lemma_ascii_byte(c: char)
    requires
        c as u32 <= 0x7f,
    ensures
        utf8_len(seq![c]) == 1,
{
    lemma_utf8_len_push(Seq::empty(), c);
    assert(Seq::<char>::empty().push(c) =~= seq![c]);
    assert(encode_utf8(Seq::<char>::empty()).len() == 0);
}

/// The bytes of parts that are joined by a single ASCII character.
pub proof fn lemma_join_bytes(parts: Seq<Seq<char>>, sep: char)
    requires
        sep as u32 <= 0x7f,
    ensures
        parts.len() == 0 ==> utf8_len(join(parts, seq![sep])) == 0,
        parts.len() > 0 ==> utf8_len(join(parts, seq![sep])) + 1 == byte_weight(parts),
    decreases parts.len(),
{
    lemma_ascii_byte(sep);
    if parts.len() == 0 {
        assert(encode_utf8(Seq::<char>::empty()).len() == 0);
    } else if parts.len() == 1 {
        assert(byte_weight(parts.drop_last()) == 0);
    } else {
        let before = join(parts.drop_last(), seq![sep]);
        lemma_join_bytes(parts.drop_last(), sep);
        lemma_encode_concat(before, seq![sep]);
        lemma_encode_concat(before + seq![sep], parts.last());
    }
}

// ---------------------------------------------------------------------------
// Lines
// ---------------------------------------------------------------------------

/// The position of the first line feed, or the length where there is none.
pub open spec fn line_end(s: Seq<char>) -> nat
    decreases s.len(),
{
    if s.len() == 0 || s[0] == '\n' {
        0
    } else {
        1 + line_end(s.drop_first())
    }
}

pub proof fn lemma_line_end(s: Seq<char>)
    ensures
        line_end(s) <= s.len(),
        line_end(s) < s.len() ==> s[line_end(s) as int] == '\n',
        forall|i: int| 0 <= i < line_end(s) ==> s[i] != '\n',
    decreases s.len(),
{
    if s.len() > 0 && s[0] != '\n' {
        let rest = s.drop_first();
        lemma_line_end(rest);
        assert forall|i: int| 0 <= i < line_end(s) implies s[i] != '\n' by {
            if i > 0 {
                assert(rest[i - 1] == s[i]);
            }
        }
    }
}

/// What stands between line feeds. A text without line feeds is one piece.
pub open spec fn pieces_of(s: Seq<char>) -> Seq<Seq<char>>
    decreases s.len(),
    via pieces_of_shrinks
{
    let e = line_end(s);
    if e == s.len() {
        seq![s]
    } else {
        seq![s.take(e as int)] + pieces_of(s.skip(e as int + 1))
    }
}

#[via_fn]
proof fn pieces_of_shrinks(s: Seq<char>) {
    lemma_line_end(s);
}

/// A line without the carriage return before its line feed.
pub open spec fn without_return(s: Seq<char>) -> Seq<char> {
    if s.len() > 0 && s.last() == '\r' {
        s.drop_last()
    } else {
        s
    }
}

/// The lines of a text. A line ends with a line feed, or a carriage return and a line feed; neither
/// is part of it. The last line may lack its end.
pub open spec fn lines_of(s: Seq<char>) -> Seq<Seq<char>>
    decreases s.len(),
    via lines_of_shrinks
{
    let e = line_end(s);
    if s.len() == 0 {
        Seq::empty()
    } else if e == s.len() {
        seq![s]
    } else {
        seq![without_return(s.take(e as int))] + lines_of(s.skip(e as int + 1))
    }
}

#[via_fn]
proof fn lines_of_shrinks(s: Seq<char>) {
    lemma_line_end(s);
}

/// The characters of some parts, and one more for each of them.
pub open spec fn weight(parts: Seq<Seq<char>>) -> nat
    decreases parts.len(),
{
    if parts.len() == 0 {
        0
    } else {
        weight(parts.drop_last()) + parts.last().len() + 1
    }
}

pub proof fn lemma_weight_concat(a: Seq<Seq<char>>, b: Seq<Seq<char>>)
    ensures
        weight(a + b) == weight(a) + weight(b),
    decreases b.len(),
{
    if b.len() == 0 {
        assert(a + b =~= a);
    } else {
        assert((a + b).drop_last() =~= a + b.drop_last());
        lemma_weight_concat(a, b.drop_last());
    }
}

/// The length of parts that are joined by a single character.
pub proof fn lemma_join_len(parts: Seq<Seq<char>>, sep: Seq<char>)
    requires
        sep.len() == 1,
    ensures
        parts.len() == 0 ==> join(parts, sep).len() == 0,
        parts.len() > 0 ==> join(parts, sep).len() + 1 == weight(parts),
    decreases parts.len(),
{
    if parts.len() == 1 {
        assert(weight(parts.drop_last()) == 0);
    } else if parts.len() > 1 {
        lemma_join_len(parts.drop_last(), sep);
    }
}

/// The lines of a text are not longer than the text.
pub proof fn lemma_lines_weight(s: Seq<char>)
    ensures
        weight(lines_of(s)) <= s.len() + 1,
        s.len() == 0 ==> weight(lines_of(s)) == 0,
    decreases s.len(),
{
    lemma_line_end(s);
    let e = line_end(s) as int;
    reveal_with_fuel(weight, 2);
    if s.len() > 0 {
        if e == s.len() {
            assert(seq![s].drop_last() =~= Seq::<Seq<char>>::empty());
        } else {
            let first = seq![without_return(s.take(e))];
            lemma_lines_weight(s.skip(e + 1));
            lemma_weight_concat(first, lines_of(s.skip(e + 1)));
            assert(first.drop_last() =~= Seq::<Seq<char>>::empty());
        }
    }
}

/// The lines of a text have all its bytes beyond one for each character.
pub proof fn lemma_lines_extra(s: Seq<char>)
    ensures
        extra_weight(lines_of(s)) == extra_bytes(s),
    decreases s.len(),
{
    lemma_line_end(s);
    let e = line_end(s) as int;
    reveal_with_fuel(extra_weight, 2);
    if s.len() == 0 {
        assert(encode_utf8(s).len() == 0);
    } else if e == s.len() {
        assert(seq![s].drop_last() =~= Seq::<Seq<char>>::empty());
    } else {
        let line = s.take(e);
        let rest = s.skip(e + 1);
        let first = seq![without_return(line)];
        lemma_lines_extra(rest);
        lemma_extra_weight_concat(first, lines_of(rest));
        assert(first.drop_last() =~= Seq::<Seq<char>>::empty());
        assert(s =~= (line + seq!['\n']) + rest);
        lemma_encode_concat(line, seq!['\n']);
        lemma_encode_concat(line + seq!['\n'], rest);
        lemma_ascii_byte('\n');
        if line.len() > 0 && line.last() == '\r' {
            assert(line =~= line.drop_last() + seq!['\r']);
            lemma_encode_concat(line.drop_last(), seq!['\r']);
            lemma_ascii_byte('\r');
        }
    }
}

/// The position of the first line feed at or after `from`, or the length where there is none.
fn find_line_end(chars: &Vec<char>, from: usize) -> (e: usize)
    requires
        from <= chars@.len(),
    ensures
        e == from + line_end(chars@.skip(from as int)),
        from <= e <= chars@.len(),
        e < chars@.len() ==> chars@[e as int] == '\n',
{
    let mut e: usize = from;
    while e < chars.len() && chars[e] != '\n'
        invariant
            from <= e <= chars@.len(),
            from + line_end(chars@.skip(from as int)) == e + line_end(chars@.skip(e as int)),
        decreases chars@.len() - e,
    {
        assert(chars@.skip(e as int).drop_first() =~= chars@.skip(e + 1));
        assert(chars@.skip(e as int)[0] == chars@[e as int]);
        e = e + 1;
    }
    proof {
        if e < chars@.len() {
            assert(chars@.skip(e as int)[0] == chars@[e as int]);
        }
        lemma_line_end(chars@.skip(from as int));
    }
    e
}

/// The pieces of `s` between line feeds, as ranges of `chars`, the characters of `s`.
pub fn split_lines(chars: &Vec<char>) -> (r: Vec<(usize, usize)>)
    ensures
        ranges_fit(r@, chars@.len() as int),
        ranges_of(chars@, r@) == pieces_of(chars@),
{
    let mut out: Vec<(usize, usize)> = Vec::new();
    let mut from: usize = 0;
    assert(chars@.skip(0) =~= chars@);
    assert(ranges_of(chars@, out@) + pieces_of(chars@) =~= pieces_of(chars@));
    loop
        invariant_except_break
            ranges_of(chars@, out@) + pieces_of(chars@.skip(from as int)) == pieces_of(chars@),
        invariant
            from <= chars@.len(),
            ranges_fit(out@, chars@.len() as int),
        ensures
            ranges_of(chars@, out@) == pieces_of(chars@),
        decreases chars@.len() - from,
    {
        let e: usize = find_line_end(chars, from);
        let ghost rest = chars@.skip(from as int);
        let ghost before = ranges_of(chars@, out@);
        proof {
            lemma_ranges_push(chars@, out@, (from, e));
            assert(rest.take(e - from) =~= chars@.subrange(from as int, e as int));
            if e < chars@.len() {
                assert(rest.skip(e - from + 1) =~= chars@.skip(e + 1));
                assert(pieces_of(rest) == seq![rest.take(e - from)] + pieces_of(
                    chars@.skip(e + 1),
                ));
                assert(before.push(chars@.subrange(from as int, e as int)) + pieces_of(
                    chars@.skip(e + 1),
                ) =~= before + pieces_of(rest));
            } else {
                assert(rest.take(e - from) =~= rest);
                assert(pieces_of(rest) == seq![rest]);
                assert(before.push(rest) =~= before + pieces_of(rest));
            }
        }
        out.push((from, e));
        if e == chars.len() {
            break;
        }
        from = e + 1;
    }
    out
}

/// Whether every range lies within `0..n`.
pub open spec fn ranges_fit(ranges: Seq<(usize, usize)>, n: int) -> bool {
    forall|i: int| 0 <= i < ranges.len() ==> (#[trigger] ranges[i]).0 <= ranges[i].1 <= n
}

/// The parts of `s` that some ranges name.
pub open spec fn ranges_of(s: Seq<char>, ranges: Seq<(usize, usize)>) -> Seq<Seq<char>> {
    ranges.map_values(|r: (usize, usize)| s.subrange(r.0 as int, r.1 as int))
}

proof fn lemma_ranges_push(s: Seq<char>, ranges: Seq<(usize, usize)>, r: (usize, usize))
    ensures
        ranges_of(s, ranges.push(r)) == ranges_of(s, ranges).push(
            s.subrange(r.0 as int, r.1 as int),
        ),
{
    assert(ranges_of(s, ranges.push(r)) =~= ranges_of(s, ranges).push(
        s.subrange(r.0 as int, r.1 as int),
    ));
}

/// The lines of a text, as ranges of `chars`, its characters.
pub fn find_lines(chars: &Vec<char>) -> (r: Vec<(usize, usize)>)
    ensures
        ranges_fit(r@, chars@.len() as int),
        ranges_of(chars@, r@) == lines_of(chars@),
{
    let mut out: Vec<(usize, usize)> = Vec::new();
    let mut from: usize = 0;
    assert(chars@.skip(0) =~= chars@);
    assert(ranges_of(chars@, out@) + lines_of(chars@) =~= lines_of(chars@));
    while from < chars.len()
        invariant
            from <= chars@.len(),
            ranges_fit(out@, chars@.len() as int),
            ranges_of(chars@, out@) + lines_of(chars@.skip(from as int)) == lines_of(chars@),
        decreases chars@.len() - from,
    {
        let e: usize = find_line_end(chars, from);
        let ghost rest = chars@.skip(from as int);
        let ghost before = ranges_of(chars@, out@);
        let to: usize = if e < chars.len() && e > from && chars[e - 1] == '\r' {
            e - 1
        } else {
            e
        };
        proof {
            lemma_ranges_push(chars@, out@, (from, to));
            let line = rest.take(e - from);
            assert(line =~= chars@.subrange(from as int, e as int));
            if e < chars@.len() {
                assert(rest.skip(e - from + 1) =~= chars@.skip(e + 1));
                assert(without_return(line) =~= chars@.subrange(from as int, to as int));
                assert(lines_of(rest) == seq![without_return(line)] + lines_of(chars@.skip(e + 1)));
                assert(before.push(chars@.subrange(from as int, to as int)) + lines_of(
                    chars@.skip(e + 1),
                ) =~= before + lines_of(rest));
            } else {
                assert(line =~= rest);
                assert(lines_of(rest) == seq![rest]);
                assert(chars@.skip(chars@.len() as int) =~= Seq::<char>::empty());
                assert(before.push(rest) + lines_of(Seq::<char>::empty()) =~= before + lines_of(
                    rest,
                ));
            }
        }
        out.push((from, to));
        from = if e == chars.len() {
            e
        } else {
            e + 1
        };
    }
    assert(chars@.skip(from as int) =~= Seq::<char>::empty());
    assert(ranges_of(chars@, out@) + lines_of(Seq::<char>::empty()) =~= ranges_of(chars@, out@));
    out
}

/// Some ranges of `chars`, with line feeds between neighbours.
pub fn join_ranges(chars: &Vec<char>, ranges: &Vec<(usize, usize)>, from: usize, to: usize) -> (r:
    String)
    requires
        ranges_fit(ranges@, chars@.len() as int),
        from <= to <= ranges@.len(),
    ensures
        r@ == join(ranges_of(chars@, ranges@).subrange(from as int, to as int), seq!['\n']),
{
    let mut out = String::new();
    let mut i: usize = from;
    let ghost all = ranges_of(chars@, ranges@);
    while i < to
        invariant
            ranges_fit(ranges@, chars@.len() as int),
            from <= i <= to <= ranges@.len(),
            all == ranges_of(chars@, ranges@),
            out@ == join(all.subrange(from as int, i as int), seq!['\n']),
        decreases to - i,
    {
        let (a, b) = ranges[i];
        let ghost before = all.subrange(from as int, i as int);
        let ghost part = chars@.subrange(a as int, b as int);
        proof {
            lemma_join_push(before, part, seq!['\n']);
            assert(all.subrange(from as int, i + 1) =~= before.push(part));
        }
        if i > from {
            out.push('\n');
        }
        push_chars(&mut out, chars, a, b);
        assert(i > from ==> out@ =~= join(before, seq!['\n']) + seq!['\n'] + part);
        assert(i == from ==> out@ =~= part);
        i = i + 1;
    }
    out
}

// ---------------------------------------------------------------------------
// White space
// ---------------------------------------------------------------------------

/// `s` without the white space at its end.
pub open spec fn trim_end(s: Seq<char>) -> Seq<char>
    decreases s.len(),
{
    if s.len() > 0 && white_space(s.last()) {
        trim_end(s.drop_last())
    } else {
        s
    }
}

/// Whether there is nothing but white space.
pub open spec fn blank(s: Seq<char>) -> bool {
    forall|i: int| 0 <= i < s.len() ==> white_space(#[trigger] s[i])
}

/// Where the range `from..to` of `chars` ends without the white space at its end.
pub fn trimmed_end(chars: &Vec<char>, from: usize, to: usize) -> (e: usize)
    requires
        from <= to <= chars@.len(),
    ensures
        from <= e <= to,
        chars@.subrange(from as int, e as int) == trim_end(
            chars@.subrange(from as int, to as int),
        ),
{
    let mut e: usize = to;
    while e > from && is_white_space(chars[e - 1])
        invariant
            from <= e <= to <= chars@.len(),
            trim_end(chars@.subrange(from as int, e as int)) == trim_end(
                chars@.subrange(from as int, to as int),
            ),
        decreases e,
    {
        assert(chars@.subrange(from as int, e as int).drop_last() =~= chars@.subrange(
            from as int,
            e - 1,
        ));
        assert(chars@.subrange(from as int, e as int).last() == chars@[e - 1]);
        e = e - 1;
    }
    assert(e > from ==> chars@.subrange(from as int, e as int).last() == chars@[e - 1]);
    e
}

/// Whether there is nothing but white space.
pub fn is_blank(chars: &Vec<char>) -> (r: bool)
    ensures
        r == blank(chars@),
{
    let mut i: usize = 0;
    while i < chars.len()
        invariant
            i <= chars@.len(),
            forall|k: int| 0 <= k < i ==> white_space(#[trigger] chars@[k]),
        decreases chars@.len() - i,
    {
        if !is_white_space(chars[i]) {
            return false;
        }
        i = i + 1;
    }
    true
}

} // verus!
