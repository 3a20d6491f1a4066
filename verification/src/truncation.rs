//! Shortening texts: white space, tool results and the strings of tool inputs.

use vstd::prelude::*;

use crate::json;
use crate::json::{FieldView, Json, JsonField, JsonView};
use crate::text;

verus! {

broadcast use {json::group_json_view, vstd::string::group_string_axioms};

// ---------------------------------------------------------------------------
// White space
// ---------------------------------------------------------------------------

/// Pieces of a text put together again: each without the white space at its end, none at the
/// beginning that is empty, and no two empty ones in a row.
pub open spec fn squeezed(pieces: Seq<Seq<char>>) -> Seq<char>
    decreases pieces.len(),
{
    if pieces.len() == 0 {
        Seq::empty()
    } else {
        let before = squeezed(pieces.drop_last());
        let line = text::trim_end(pieces.last());
        let after_empty = pieces.len() > 1 && text::trim_end(pieces[pieces.len() - 2]).len() == 0;
        if line.len() > 0 && before.len() > 0 {
            before.push('\n') + line
        } else if line.len() > 0 {
            line
        } else if before.len() > 0 && !after_empty {
            before.push('\n')
        } else {
            before
        }
    }
}

/// A text with compressed white space.
pub open spec fn compressed(s: Seq<char>) -> Seq<char> {
    squeezed(text::pieces_of(s))
}

/// `s` with compressed white space.
pub fn compress_whitespace(s: &str) -> (r: String)
    ensures
        r@ == compressed(s@),
{
    let chars = text::to_chars(s);
    let pieces = text::split_lines(&chars);
    let ghost all = text::ranges_of(chars@, pieces@);
    let mut out = String::new();
    let mut empty: bool = true;
    let mut after_empty: bool = false;
    let mut i: usize = 0;
    while i < pieces.len()
        invariant
            text::ranges_fit(pieces@, chars@.len() as int),
            all == text::ranges_of(chars@, pieces@),
            i <= pieces@.len(),
            out@ == squeezed(all.take(i as int)),
            empty == (out@.len() == 0),
            after_empty == (i > 0 && text::trim_end(all[i - 1]).len() == 0),
        decreases pieces@.len() - i,
    {
        let (from, to) = pieces[i];
        let e: usize = text::trimmed_end(&chars, from, to);
        let ghost line = text::trim_end(all[i as int]);
        let ghost head = all.take(i + 1);
        assert(head.drop_last() =~= all.take(i as int));
        assert(head.last() == all[i as int]);
        assert(line == chars@.subrange(from as int, e as int));
        if i > 0 {
            assert(head[head.len() - 2] == all[i - 1]);
        }
        let ghost before = out@;
        if e > from {
            if !empty {
                out.push('\n');
            }
            text::push_chars(&mut out, &chars, from, e);
            assert(before.len() == 0 ==> out@ =~= line);
            assert(before.len() > 0 ==> out@ =~= before.push('\n') + line);
            empty = false;
            after_empty = false;
        } else {
            if !empty && !after_empty {
                out.push('\n');
            }
            after_empty = true;
        }
        i = i + 1;
    }
    assert(all.take(i as int) =~= all);
    out
}

/// A text after compression of its white space. A blank text stays as it is, and so does one that
/// would not become shorter.
pub open spec fn compressed_field(s: Seq<char>) -> Seq<char> {
    if text::blank(s) || text::utf8_len(compressed(s)) >= text::utf8_len(s) {
        s
    } else {
        compressed(s)
    }
}

/// Compresses the white space of a text, and gives the bytes that this saves.
pub fn compress_string_field(field: &mut String) -> (saved: usize)
    ensures
        final(field)@ == compressed_field(old(field)@),
        saved == text::utf8_len(old(field)@) - text::utf8_len(final(field)@),
{
    let chars = text::to_chars(field.as_str());
    if text::is_blank(&chars) {
        return 0;
    }
    let before: usize = text::byte_len(field.as_str());
    let shorter = compress_whitespace(field.as_str());
    let after: usize = text::byte_len(shorter.as_str());
    if after < before {
        *field = shorter;
        before - after
    } else {
        0
    }
}

// ---------------------------------------------------------------------------
// Head and tail
// ---------------------------------------------------------------------------

/// The first `n` characters, or all of them.
pub open spec fn head_of(s: Seq<char>, n: nat) -> Seq<char> {
    if n < s.len() {
        s.take(n as int)
    } else {
        s
    }
}

/// The last `n` characters, or all of them.
pub open spec fn tail_of(s: Seq<char>, n: nat) -> Seq<char> {
    if n < s.len() {
        s.skip(s.len() - n)
    } else {
        s
    }
}

/// The first `max_chars` characters of `s`, or all of them.
pub fn safe_char_truncate(s: &str, max_chars: usize) -> (r: &str)
    ensures
        r@ == head_of(s@, max_chars as nat),
{
    let n: usize = s.unicode_len();
    if max_chars < n {
        s.substring_char(0, max_chars)
    } else {
        s
    }
}

/// The last `max_chars` characters of `s`, or all of them.
pub fn tail_by_chars(s: &str, max_chars: usize) -> (r: &str)
    ensures
        r@ == tail_of(s@, max_chars as nat),
{
    let n: usize = s.unicode_len();
    if max_chars < n {
        s.substring_char(n - max_chars, n)
    } else {
        s
    }
}

/// What stands for `omitted` characters that were left out.
pub open spec fn chars_marker(omitted: nat) -> Seq<char> {
    "\n... ["@ + text::decimal(omitted) + " chars omitted] ...\n"@
}

/// A text cut to `max_chars` characters, with a mark between its head and its tail. Where not even
/// the short mark has room, the head alone.
pub open spec fn cut_in_the_middle(s: Seq<char>, max_chars: nat) -> Seq<char> {
    if max_chars == 0 || s.len() <= max_chars {
        s
    } else {
        let full = chars_marker((s.len() - max_chars) as nat);
        let marker = if full.len() < max_chars {
            full
        } else {
            "\n...\n"@
        };
        if marker.len() >= max_chars {
            head_of(s, max_chars)
        } else {
            let room = max_chars - marker.len();
            head_of(s, (room / 2) as nat) + marker + tail_of(s, (room - room / 2) as nat)
        }
    }
}

fn chars_marker_text(omitted: usize) -> (r: String)
    ensures
        r@ == chars_marker(omitted as nat),
{
    let mut out = "\n... [".to_string();
    let n = text::decimal_text(omitted as u64);
    out.append(n.as_str());
    out.append(" chars omitted] ...\n");
    out
}

/// `s` cut to `max_chars` characters, with a mark between its head and its tail.
pub fn truncate_preserving_head_tail(s: &str, max_chars: usize) -> (r: String)
    ensures
        r@ == cut_in_the_middle(s@, max_chars as nat),
{
    let n: usize = s.unicode_len();
    if max_chars == 0 || n <= max_chars {
        return s.to_string();
    }
    let full = chars_marker_text(n - max_chars);
    let marker = if full.as_str().unicode_len() < max_chars {
        full
    } else {
        "\n...\n".to_string()
    };
    let marker_chars: usize = marker.as_str().unicode_len();
    if marker_chars >= max_chars {
        return safe_char_truncate(s, max_chars).to_string();
    }
    let room: usize = max_chars - marker_chars;
    let head_chars: usize = room / 2;
    let tail_chars: usize = room - head_chars;
    let mut out = safe_char_truncate(s, head_chars).to_string();
    out.append(marker.as_str());
    out.append(tail_by_chars(s, tail_chars));
    out
}

// ---------------------------------------------------------------------------
// Lines
// ---------------------------------------------------------------------------

/// What stands for lines that were left out.
pub open spec fn lines_marker(omitted_lines: nat, omitted_chars: nat) -> Seq<char> {
    "\n... ["@ + text::decimal(omitted_lines) + " lines omitted ("@ + text::decimal(omitted_chars)
        + " chars)] ...\n"@
}

/// The first `head_lines` and the last `tail_lines` lines of a text, with a mark between them.
pub open spec fn cut_by_lines(s: Seq<char>, head_lines: nat, tail_lines: nat) -> Seq<char> {
    let lines = text::lines_of(s);
    let head = text::join(lines.take(head_lines as int), seq!['\n']);
    let tail = text::join(lines.skip(lines.len() - tail_lines), seq!['\n']);
    head + lines_marker(
        (lines.len() - head_lines - tail_lines) as nat,
        (s.len() - head.len() - tail.len()) as nat,
    ) + tail
}

/// A text cut to `max_chars` characters: by lines where there are more than are to be kept and what
/// is kept has room, else in the middle.
pub open spec fn shortened(
    s: Seq<char>,
    max_chars: nat,
    head_lines: nat,
    tail_lines: nat,
) -> Seq<char> {
    if max_chars == 0 || s.len() <= max_chars {
        s
    } else if text::lines_of(s).len() > head_lines + tail_lines && head_lines + tail_lines > 0
        && cut_by_lines(s, head_lines, tail_lines).len() <= max_chars {
        cut_by_lines(s, head_lines, tail_lines)
    } else {
        cut_in_the_middle(s, max_chars)
    }
}

/// The lines kept at the head and at the tail together are not longer than the text.
proof fn lemma_kept_lines(s: Seq<char>, head_lines: nat, tail_lines: nat)
    requires
        text::lines_of(s).len() > head_lines + tail_lines,
        head_lines + tail_lines > 0,
    ensures
        text::join(text::lines_of(s).take(head_lines as int), seq!['\n']).len() + text::join(
            text::lines_of(s).skip(text::lines_of(s).len() - tail_lines),
            seq!['\n'],
        ).len() <= s.len(),
{
    let lines = text::lines_of(s);
    let head = lines.take(head_lines as int);
    let middle = lines.subrange(head_lines as int, lines.len() - tail_lines);
    let tail = lines.skip(lines.len() - tail_lines);
    assert(lines =~= (head + middle) + tail);
    text::lemma_weight_concat(head + middle, tail);
    text::lemma_weight_concat(head, middle);
    text::lemma_lines_weight(s);
    text::lemma_join_len(head, seq!['\n']);
    text::lemma_join_len(tail, seq!['\n']);
}

/// `s` cut to `max_chars` characters, and the bytes that this saves.
pub fn smart_truncate_by_lines(
    s: &str,
    max_chars: usize,
    head_lines: usize,
    tail_lines: usize,
) -> (r: (String, usize))
    ensures
        r.0@ == shortened(s@, max_chars as nat, head_lines as nat, tail_lines as nat),
        r.1 == text::utf8_len(s@) - text::utf8_len(r.0@),
{
    let n: usize = s.unicode_len();
    if max_chars == 0 || n <= max_chars {
        return (s.to_string(), 0);
    }
    let chars = text::to_chars(s);
    let lines = text::find_lines(&chars);
    let total: usize = lines.len();
    let sum: usize = head_lines.saturating_add(tail_lines);
    let ghost all = text::lines_of(s@);
    assert(all.len() == total);
    let result = if total > sum && sum > 0 {
        let head = text::join_ranges(&chars, &lines, 0, head_lines);
        let tail = text::join_ranges(&chars, &lines, total - tail_lines, total);
        proof {
            assert(all.subrange(0, head_lines as int) =~= all.take(head_lines as int));
            assert(all.subrange(total - tail_lines, total as int) =~= all.skip(total - tail_lines));
            lemma_kept_lines(s@, head_lines as nat, tail_lines as nat);
        }
        let kept: usize = head.as_str().unicode_len() + tail.as_str().unicode_len();
        let omitted_lines = text::decimal_text((total - sum) as u64);
        let omitted_chars = text::decimal_text((n - kept) as u64);
        let mut marked = head;
        let ghost marker = lines_marker((total - sum) as nat, (n - kept) as nat);
        let ghost head_text = marked@;
        marked.append("\n... [");
        marked.append(omitted_lines.as_str());
        marked.append(" lines omitted (");
        marked.append(omitted_chars.as_str());
        marked.append(" chars)] ...\n");
        marked.append(tail.as_str());
        assert(marked@ =~= head_text + marker + tail@);
        assert(marked@ == cut_by_lines(s@, head_lines as nat, tail_lines as nat));
        if marked.as_str().unicode_len() <= max_chars {
            marked
        } else {
            truncate_preserving_head_tail(s, max_chars)
        }
    } else {
        truncate_preserving_head_tail(s, max_chars)
    };
    proof {
        law_shortened_fits(s@, max_chars as nat, head_lines as nat, tail_lines as nat);
    }
    let before: usize = text::byte_len(s);
    let after: usize = text::byte_len(result.as_str());
    (result, before.saturating_sub(after))
}

/// The marks are ASCII texts.
proof fn lemma_markers_are_ascii(a: nat, b: nat)
    ensures
        text::utf8_len(chars_marker(a)) == chars_marker(a).len(),
        text::utf8_len("\n...\n"@) == "\n...\n"@.len(),
        text::utf8_len(lines_marker(a, b)) == lines_marker(a, b).len(),
{
    reveal_strlit("\n... [");
    reveal_strlit(" chars omitted] ...\n");
    reveal_strlit("\n...\n");
    reveal_strlit(" lines omitted (");
    reveal_strlit(" chars)] ...\n");
    text::lemma_decimal_digits(a);
    text::lemma_decimal_digits(b);
    text::lemma_ascii_bytes("\n...\n"@);
    text::lemma_ascii_bytes(chars_marker(a));
    text::lemma_ascii_bytes(lines_marker(a, b));
}

/// Cutting a text in the middle keeps it within `max_chars` characters, and saves bytes where it
/// cuts anything.
pub proof fn lemma_cut_in_the_middle(s: Seq<char>, max_chars: nat)
    requires
        max_chars > 0,
        s.len() > max_chars,
    ensures
        cut_in_the_middle(s, max_chars).len() == max_chars,
        text::utf8_len(cut_in_the_middle(s, max_chars)) < text::utf8_len(s),
{
    let omitted = (s.len() - max_chars) as nat;
    let full = chars_marker(omitted);
    let marker = if full.len() < max_chars {
        full
    } else {
        "\n...\n"@
    };
    lemma_markers_are_ascii(omitted, 0);
    if marker.len() >= max_chars {
        text::lemma_utf8_len_take(s, max_chars as int, s.len() as int);
    } else {
        let room = max_chars - marker.len();
        let h = room / 2;
        let t = room - h;
        let head = s.take(h);
        let middle = s.subrange(h, s.len() - t);
        let tail = s.skip(s.len() - t);
        assert(s =~= (head + middle) + tail);
        text::lemma_encode_concat(head, middle);
        text::lemma_encode_concat(head + middle, tail);
        text::lemma_utf8_len_bound(middle);
        text::lemma_encode_concat(head, marker);
        text::lemma_encode_concat(head + marker, tail);
    }
}

/// A text that is cut has at most `max_chars` characters, and fewer bytes than before.
pub proof fn law_shortened_fits(s: Seq<char>, max_chars: nat, head_lines: nat, tail_lines: nat)
    ensures
        max_chars > 0 ==> shortened(s, max_chars, head_lines, tail_lines).len() <= max_chars,
        text::utf8_len(shortened(s, max_chars, head_lines, tail_lines)) <= text::utf8_len(s),
        max_chars > 0 && s.len() > max_chars ==> text::utf8_len(
            shortened(s, max_chars, head_lines, tail_lines),
        ) < text::utf8_len(s),
{
    if max_chars > 0 && s.len() > max_chars {
        lemma_cut_in_the_middle(s, max_chars);
        let lines = text::lines_of(s);
        let cut = cut_by_lines(s, head_lines, tail_lines);
        if lines.len() > head_lines + tail_lines && head_lines + tail_lines > 0 && cut.len()
            <= max_chars {
            let head = lines.take(head_lines as int);
            let middle = lines.subrange(head_lines as int, lines.len() - tail_lines);
            let tail = lines.skip(lines.len() - tail_lines);
            let head_text = text::join(head, seq!['\n']);
            let tail_text = text::join(tail, seq!['\n']);
            let omitted_lines = (lines.len() - head_lines - tail_lines) as nat;
            let omitted_chars = (s.len() - head_text.len() - tail_text.len()) as nat;
            let marker = lines_marker(omitted_lines, omitted_chars);
            lemma_markers_are_ascii(omitted_lines, omitted_chars);
            assert(lines =~= (head + middle) + tail);
            text::lemma_extra_weight_concat(head + middle, tail);
            text::lemma_extra_weight_concat(head, middle);
            text::lemma_lines_extra(s);
            text::lemma_join_extra(head);
            text::lemma_join_extra(tail);
            text::lemma_encode_concat(head_text, marker);
            text::lemma_encode_concat(head_text + marker, tail_text);
        }
    }
}

// ---------------------------------------------------------------------------
// Strings of JSON values
// ---------------------------------------------------------------------------

/// A string cut to `max_chars` characters, with a mark where that is still shorter in bytes.
pub open spec fn cut_string(s: Seq<char>, max_chars: nat) -> Seq<char> {
    if s.len() <= max_chars {
        s
    } else {
        let head = s.take(max_chars as int);
        let marked = head + "...[truncated "@ + text::decimal((s.len() - max_chars) as nat)
            + " chars]"@;
        if text::utf8_len(marked) < text::utf8_len(s) {
            marked
        } else {
            head
        }
    }
}

/// Cutting a string saves bytes.
pub proof fn lemma_cut_string_shorter(s: Seq<char>, max_chars: nat)
    ensures
        text::utf8_len(cut_string(s, max_chars)) <= text::utf8_len(s),
        s.len() > max_chars ==> text::utf8_len(cut_string(s, max_chars)) < text::utf8_len(s),
{
    if s.len() > max_chars {
        text::lemma_utf8_len_take(s, max_chars as int, s.len() as int);
    }
}

fn cut_string_of(s: &str, max_chars: usize) -> (r: String)
    ensures
        r@ == cut_string(s@, max_chars as nat),
{
    let n: usize = s.unicode_len();
    if n <= max_chars {
        return s.to_string();
    }
    let head = safe_char_truncate(s, max_chars).to_string();
    let omitted = text::decimal_text((n - max_chars) as u64);
    let mut marked = head.clone();
    marked.append("...[truncated ");
    marked.append(omitted.as_str());
    marked.append(" chars]");
    if text::byte_len(marked.as_str()) < text::byte_len(s) {
        marked
    } else {
        head
    }
}

/// A JSON value with every string in it cut.
pub open spec fn cut_strings(v: JsonView, max_chars: nat) -> JsonView
    decreases v,
{
    match v {
        JsonView::Text(s) => JsonView::Text(cut_string(s, max_chars)),
        JsonView::Array(items) => JsonView::Array(cut_items(items, max_chars)),
        JsonView::Object(fields) => JsonView::Object(cut_fields(fields, max_chars)),
        _ => v,
    }
}

pub open spec fn cut_items(items: Seq<JsonView>, max_chars: nat) -> Seq<JsonView>
    decreases items,
{
    if items.len() == 0 {
        Seq::empty()
    } else {
        cut_items(items.drop_last(), max_chars).push(cut_strings(items.last(), max_chars))
    }
}

pub open spec fn cut_fields(fields: Seq<FieldView>, max_chars: nat) -> Seq<FieldView>
    decreases fields,
{
    if fields.len() == 0 {
        Seq::empty()
    } else {
        cut_fields(fields.drop_last(), max_chars).push(
            FieldView {
                key: fields.last().key,
                value: cut_strings(fields.last().value, max_chars),
            },
        )
    }
}

/// The bytes of all strings in a JSON value, keys not counted.
pub open spec fn string_bytes(v: JsonView) -> nat
    decreases v,
{
    match v {
        JsonView::Text(s) => text::utf8_len(s),
        JsonView::Array(items) => items_bytes(items),
        JsonView::Object(fields) => fields_bytes(fields),
        _ => 0,
    }
}

pub open spec fn items_bytes(items: Seq<JsonView>) -> nat
    decreases items,
{
    if items.len() == 0 {
        0
    } else {
        items_bytes(items.drop_last()) + string_bytes(items.last())
    }
}

pub open spec fn fields_bytes(fields: Seq<FieldView>) -> nat
    decreases fields,
{
    if fields.len() == 0 {
        0
    } else {
        fields_bytes(fields.drop_last()) + string_bytes(fields.last().value)
    }
}

pub proof fn lemma_items_bytes_take(items: Seq<JsonView>, i: int)
    requires
        0 <= i <= items.len(),
    ensures
        items_bytes(items.take(i)) <= items_bytes(items),
        i < items.len() ==> items_bytes(items.take(i)) + string_bytes(items[i]) <= items_bytes(
            items,
        ),
    decreases items.len() - i,
{
    if i < items.len() {
        assert(items.take(i + 1).drop_last() =~= items.take(i));
        lemma_items_bytes_take(items, i + 1);
    } else {
        assert(items.take(i) =~= items);
    }
}

pub proof fn lemma_fields_bytes_take(fields: Seq<FieldView>, i: int)
    requires
        0 <= i <= fields.len(),
    ensures
        fields_bytes(fields.take(i)) <= fields_bytes(fields),
        i < fields.len() ==> fields_bytes(fields.take(i)) + string_bytes(fields[i].value)
            <= fields_bytes(fields),
    decreases fields.len() - i,
{
    if i < fields.len() {
        assert(fields.take(i + 1).drop_last() =~= fields.take(i));
        lemma_fields_bytes_take(fields, i + 1);
    } else {
        assert(fields.take(i) =~= fields);
    }
}

/// Cuts every string in a JSON value to `max_chars` characters, and gives the bytes that this
/// saves.
pub fn truncate_json_value_strings(value: &mut Json, max_chars: usize) -> (saved: usize)
    requires
        string_bytes(old(value)@) <= usize::MAX,
    ensures
        final(value)@ == cut_strings(old(value)@, max_chars as nat),
        saved == string_bytes(old(value)@) - string_bytes(final(value)@),
    decreases old(value)@, 1int,
{
    match value {
        Json::Text(s) => {
            let before: usize = text::byte_len(s.as_str());
            let shorter = cut_string_of(s.as_str(), max_chars);
            proof {
                lemma_cut_string_shorter(s@, max_chars as nat);
            }
            let after: usize = text::byte_len(shorter.as_str());
            *s = shorter;
            before - after
        },
        Json::Array(items) => truncate_items(items, max_chars),
        Json::Object(fields) => truncate_fields(fields, max_chars),
        _ => 0,
    }
}

fn truncate_items(items: &mut Vec<Json>, max_chars: usize) -> (saved: usize)
    requires
        items_bytes(json::items_view(old(items)@)) <= usize::MAX,
    ensures
        json::items_view(final(items)@) == cut_items(
            json::items_view(old(items)@),
            max_chars as nat,
        ),
        saved == items_bytes(json::items_view(old(items)@)) - items_bytes(
            json::items_view(final(items)@),
        ),
    decreases JsonView::Array(json::items_view(old(items)@)), 0int,
{
    let ghost all = json::items_view(items@);
    let mut saved: usize = 0;
    let mut i: usize = 0;
    while i < items.len()
        invariant
            i <= items@.len(),
            items@.len() == all.len(),
            all == json::items_view(old(items)@),
            items_bytes(all) <= usize::MAX,
            forall|k: int| i <= k < all.len() ==> (#[trigger] items@[k])@ == all[k],
            json::items_view(items@).take(i as int) == cut_items(
                all.take(i as int),
                max_chars as nat,
            ),
            saved == items_bytes(all.take(i as int)) - items_bytes(
                json::items_view(items@).take(i as int),
            ),
        decreases all.len() - i,
    {
        let ghost before = json::items_view(items@);
        proof {
            json::lemma_item_smaller(all, i as int);
            lemma_items_bytes_take(all, i as int);
            assert(items@[i as int]@ == all[i as int]);
        }
        let n: usize = truncate_json_value_strings(&mut items[i], max_chars);
        proof {
            let after = json::items_view(items@);
            assert(after.take(i + 1).drop_last() =~= before.take(i as int));
            assert(all.take(i + 1).drop_last() =~= all.take(i as int));
            assert(after.take(i + 1) =~= before.take(i as int).push(after[i as int]));
        }
        saved = saved + n;
        i = i + 1;
    }
    assert(all.take(i as int) =~= all);
    assert(json::items_view(items@).take(i as int) =~= json::items_view(items@));
    saved
}

fn truncate_fields(fields: &mut Vec<JsonField>, max_chars: usize) -> (saved: usize)
    requires
        fields_bytes(json::fields_view(old(fields)@)) <= usize::MAX,
    ensures
        json::fields_view(final(fields)@) == cut_fields(
            json::fields_view(old(fields)@),
            max_chars as nat,
        ),
        saved == fields_bytes(json::fields_view(old(fields)@)) - fields_bytes(
            json::fields_view(final(fields)@),
        ),
    decreases JsonView::Object(json::fields_view(old(fields)@)), 0int,
{
    let ghost all = json::fields_view(fields@);
    let mut saved: usize = 0;
    let mut i: usize = 0;
    while i < fields.len()
        invariant
            i <= fields@.len(),
            fields@.len() == all.len(),
            all == json::fields_view(old(fields)@),
            fields_bytes(all) <= usize::MAX,
            forall|k: int| i <= k < all.len() ==> (#[trigger] fields@[k])@ == all[k],
            json::fields_view(fields@).take(i as int) == cut_fields(
                all.take(i as int),
                max_chars as nat,
            ),
            saved == fields_bytes(all.take(i as int)) - fields_bytes(
                json::fields_view(fields@).take(i as int),
            ),
        decreases all.len() - i,
    {
        let ghost before = json::fields_view(fields@);
        proof {
            json::lemma_value_smaller(all, i as int);
            lemma_fields_bytes_take(all, i as int);
            assert(fields@[i as int]@ == all[i as int]);
        }
        let n: usize = truncate_json_value_strings(&mut fields[i].value, max_chars);
        proof {
            let after = json::fields_view(fields@);
            assert(after.take(i + 1).drop_last() =~= before.take(i as int));
            assert(all.take(i + 1).drop_last() =~= all.take(i as int));
            assert(after.take(i + 1) =~= before.take(i as int).push(after[i as int]));
        }
        saved = saved + n;
        i = i + 1;
    }
    assert(all.take(i as int) =~= all);
    assert(json::fields_view(fields@).take(i as int) =~= json::fields_view(fields@));
    saved
}

} // verus!
