//! What is left of a text, and of the texts in a value, when it is cut.

use vstd::prelude::*;
use vstd::utf8::*;

use crate::compression_laws;
use crate::json::{FieldView, JsonView};
use crate::text;
use crate::truncation;

verus! {

// ---------------------------------------------------------------------------
// Texts that are cut in the middle
// ---------------------------------------------------------------------------

/// Whether `cut` consists of the first `head` characters of `s`, a mark and the last `tail`
/// characters of `s`.
pub open spec fn cut_around(
    s: Seq<char>,
    cut: Seq<char>,
    head: int,
    mark: Seq<char>,
    tail: int,
) -> bool {
    &&& 0 <= head <= s.len()
    &&& 0 <= tail <= s.len()
    &&& cut.len() == head + mark.len() + tail
    &&& cut.take(head) == s.take(head)
    &&& cut.subrange(head, head + mark.len()) == mark
    &&& cut.skip(head + mark.len()) == s.skip(s.len() - tail)
}

/// Whether a text says `before`, a number and `after`.
pub open spec fn says(mark: Seq<char>, before: Seq<char>, n: nat, after: Seq<char>) -> bool {
    &&& mark.len() == before.len() + text::decimal(n).len() + after.len()
    &&& before.is_prefix_of(mark)
    &&& after.is_suffix_of(mark)
    &&& mark.subrange(before.len() as int, mark.len() - after.len()) == text::decimal(n)
}

/// A text that fits stays. One that does not is cut to as many characters as it may have: at most
/// five are the first ones of the text, more of them are the two ends of the text, the second as
/// long as the first or one longer, around a mark. The mark says how many characters are too many
/// where it has room, and is three dots between line feeds where it has not.
pub proof fn law_texts_are_cut_in_the_middle(s: Seq<char>, max_chars: nat)
    ensures
        ({
            let cut = truncation::cut_in_the_middle(s, max_chars);
            &&& max_chars == 0 || s.len() <= max_chars ==> cut == s
            &&& 0 < max_chars < s.len() && max_chars <= 5 ==> cut == s.take(max_chars as int)
            &&& 5 < max_chars < s.len() ==> exists|head: int, mark: Seq<char>, tail: int|
                {
                    &&& #[trigger] cut_around(s, cut, head, mark, tail)
                    &&& head + mark.len() + tail == max_chars
                    &&& tail == head || tail == head + 1
                    &&& text::decimal((s.len() - max_chars) as nat).len() + 26 < max_chars
                        ==> says(
                        mark,
                        "\n... ["@,
                        (s.len() - max_chars) as nat,
                        " chars omitted] ...\n"@,
                    )
                    &&& text::decimal((s.len() - max_chars) as nat).len() + 26 >= max_chars
                        ==> mark == seq!['\n', '.', '.', '.', '\n']
                }
        }),
{
    let cut = truncation::cut_in_the_middle(s, max_chars);
    reveal_strlit("\n...\n");
    reveal_strlit("\n... [");
    reveal_strlit(" chars omitted] ...\n");
    assert("\n...\n"@ =~= seq!['\n', '.', '.', '.', '\n']);
    if 0 < max_chars < s.len() {
        let n = (s.len() - max_chars) as nat;
        text::lemma_decimal_digits(n);
        let full = truncation::chars_marker(n);
        assert(full.len() == text::decimal(n).len() + 26);
        if max_chars > 5 {
            let mark = if full.len() < max_chars {
                full
            } else {
                "\n...\n"@
            };
            let room: int = max_chars - mark.len();
            let head: int = room / 2;
            let tail: int = room - head;
            assert(cut == s.take(head) + mark + s.skip(s.len() - tail));
            assert(cut.take(head) =~= s.take(head));
            assert(cut.subrange(head, head + mark.len()) =~= mark);
            assert(cut.skip(head + mark.len()) =~= s.skip(s.len() - tail));
            assert(cut_around(s, cut, head, mark, tail));
            lemma_says("\n... ["@, n, " chars omitted] ...\n"@);
        }
    }
}

proof fn lemma_says(before: Seq<char>, n: nat, after: Seq<char>)
    ensures
        says(before + text::decimal(n) + after, before, n, after),
{
    let mark = before + text::decimal(n) + after;
    assert(before =~= mark.take(before.len() as int));
    assert(after =~= mark.skip(mark.len() - after.len()));
    assert(mark.subrange(before.len() as int, mark.len() - after.len()) =~= text::decimal(n));
}

/// A text that is cut by lines keeps its first `head_lines` and its last `tail_lines` lines around
/// a mark, which says how many lines and how many characters it stands for. This happens to a text
/// that is too long and has lines to spare, where the outcome fits. Otherwise a text that is too
/// long is cut in the middle, whatever its lines are.
pub proof fn law_texts_are_cut_by_lines(
    s: Seq<char>,
    max_chars: nat,
    head_lines: nat,
    tail_lines: nat,
)
    ensures
        ({
            let cut = truncation::shortened(s, max_chars, head_lines, tail_lines);
            let lines = text::lines_of(s);
            let first = text::join(lines.take(head_lines as int), seq!['\n']);
            let last = text::join(lines.skip(lines.len() - tail_lines), seq!['\n']);
            let mark = "\n... ["@ + text::decimal((lines.len() - head_lines - tail_lines) as nat)
                + " lines omitted ("@ + text::decimal(
                (s.len() - first.len() - last.len()) as nat,
            ) + " chars)] ...\n"@;
            let by_lines = head_lines + tail_lines > 0 && lines.len() > head_lines + tail_lines
                && first.len() + mark.len() + last.len() <= max_chars;
            &&& max_chars == 0 || s.len() <= max_chars ==> cut == s
            &&& 0 < max_chars < s.len() && by_lines ==> {
                &&& cut.len() == first.len() + mark.len() + last.len()
                &&& first.is_prefix_of(cut)
                &&& last.is_suffix_of(cut)
                &&& cut.subrange(first.len() as int, (first.len() + mark.len()) as int) == mark
            }
            &&& 0 < max_chars < s.len() && !by_lines ==> cut == truncation::cut_in_the_middle(
                s,
                max_chars,
            )
        }),
{
    let cut = truncation::shortened(s, max_chars, head_lines, tail_lines);
    let lines = text::lines_of(s);
    let first = text::join(lines.take(head_lines as int), seq!['\n']);
    let last = text::join(lines.skip(lines.len() - tail_lines), seq!['\n']);
    let mark = truncation::lines_marker(
        (lines.len() - head_lines - tail_lines) as nat,
        (s.len() - first.len() - last.len()) as nat,
    );
    let whole = first + mark + last;
    assert(whole == truncation::cut_by_lines(s, head_lines, tail_lines));
    assert(first =~= whole.take(first.len() as int));
    assert(last =~= whole.skip(whole.len() - last.len()));
    assert(whole.subrange(first.len() as int, (first.len() + mark.len()) as int) =~= mark);
}

/// The head of a text are its first characters and the tail its last ones: as many as asked for, or
/// all where the text has no more.
pub proof fn law_heads_and_tails(s: Seq<char>, n: nat)
    ensures
        truncation::head_of(s, n).is_prefix_of(s),
        truncation::tail_of(s, n).is_suffix_of(s),
        n <= s.len() ==> truncation::head_of(s, n).len() == n,
        n <= s.len() ==> truncation::tail_of(s, n).len() == n,
        n > s.len() ==> truncation::head_of(s, n) == s,
        n > s.len() ==> truncation::tail_of(s, n) == s,
{
    let head = truncation::head_of(s, n);
    let tail = truncation::tail_of(s, n);
    assert(head =~= s.take(head.len() as int));
    assert(tail =~= s.skip(s.len() - tail.len()));
}

/// A number is written with the digits of its tenths before the digit of what is left.
pub proof fn law_numbers_are_written_in_tens(n: nat)
    ensures
        n < 10 ==> text::decimal(n).len() == 1,
        n >= 10 ==> text::decimal(n).drop_last() == text::decimal(n / 10),
        text::decimal(n).len() > 0,
        text::decimal(n).last() as int == '0' as int + n % 10,
{
    if n >= 10 {
        assert(text::decimal(n).drop_last() =~= text::decimal(n / 10));
    }
}

// ---------------------------------------------------------------------------
// Strings in values
// ---------------------------------------------------------------------------

/// A string that fits stays. One that does not keeps its first characters; how many were cut off is
/// said behind them, where this takes fewer bytes than they took.
pub proof fn law_strings_are_cut(s: Seq<char>, max_chars: nat)
    ensures
        ({
            let cut = truncation::cut_string(s, max_chars);
            let mark = "...[truncated "@ + text::decimal((s.len() - max_chars) as nat)
                + " chars]"@;
            &&& s.len() <= max_chars ==> cut == s
            &&& s.len() > max_chars ==> cut.take(max_chars as int) == s.take(max_chars as int)
            &&& s.len() > max_chars && text::utf8_len(mark) < text::utf8_len(
                s.skip(max_chars as int),
            ) ==> cut.skip(max_chars as int) == mark && cut.len() == max_chars + mark.len()
            &&& s.len() > max_chars && text::utf8_len(mark) >= text::utf8_len(
                s.skip(max_chars as int),
            ) ==> cut.len() == max_chars
        }),
{
    if s.len() > max_chars {
        let m = max_chars as int;
        let cut = truncation::cut_string(s, max_chars);
        let mark = "...[truncated "@ + text::decimal((s.len() - max_chars) as nat) + " chars]"@;
        let marked = s.take(m) + "...[truncated "@ + text::decimal((s.len() - max_chars) as nat)
            + " chars]"@;
        assert(marked =~= s.take(m) + mark);
        assert(s =~= s.take(m) + s.skip(m));
        text::lemma_encode_concat(s.take(m), mark);
        text::lemma_encode_concat(s.take(m), s.skip(m));
        assert(marked.take(m) =~= s.take(m));
        assert(marked.skip(m) =~= mark);
        assert(s.take(m).take(m) =~= s.take(m));
    }
}

/// Cutting the strings in a value goes all through it: a string becomes the cut string, each item
/// of a list and each field of an object the value with its strings cut, at its place and under its
/// key. What holds no string stays.
pub proof fn law_values_are_cut_all_through(v: JsonView, max_chars: nat)
    ensures
        ({
            let cut = truncation::cut_strings(v, max_chars);
            match v {
                JsonView::Text(s) => cut == JsonView::Text(truncation::cut_string(s, max_chars)),
                JsonView::Array(items) => {
                    &&& cut is Array
                    &&& cut->Array_0.len() == items.len()
                    &&& forall|i: int|
                        0 <= i < items.len() ==> #[trigger] cut->Array_0[i]
                            == truncation::cut_strings(items[i], max_chars)
                },
                JsonView::Object(fields) => {
                    &&& cut is Object
                    &&& cut->Object_0.len() == fields.len()
                    &&& forall|i: int|
                        0 <= i < fields.len() ==> (#[trigger] cut->Object_0[i]).key == fields[i].key
                            && cut->Object_0[i].value == truncation::cut_strings(
                            fields[i].value,
                            max_chars,
                        )
                },
                _ => cut == v,
            }
        }),
{
    match v {
        JsonView::Array(items) => {
            lemma_items_are_cut(items, max_chars);
        },
        JsonView::Object(fields) => {
            compression_laws::law_cut_values_keep_their_shape(v, max_chars);
        },
        _ => {},
    }
}

proof fn lemma_items_are_cut(items: Seq<JsonView>, max_chars: nat)
    ensures
        truncation::cut_items(items, max_chars).len() == items.len(),
        forall|i: int|
            0 <= i < items.len() ==> #[trigger] truncation::cut_items(items, max_chars)[i]
                == truncation::cut_strings(items[i], max_chars),
    decreases items.len(),
{
    if items.len() > 0 {
        let front = items.drop_last();
        lemma_items_are_cut(front, max_chars);
        assert forall|i: int| 0 <= i < items.len() implies #[trigger] truncation::cut_items(
            items,
            max_chars,
        )[i] == truncation::cut_strings(items[i], max_chars) by {
            if i < front.len() {
                assert(truncation::cut_items(items, max_chars)[i] == truncation::cut_items(
                    front,
                    max_chars,
                )[i]);
            }
        }
    }
}

/// Whether a string has no more than `max_chars` characters, or that many and a mark behind them.
pub open spec fn is_short(s: Seq<char>, max_chars: nat) -> bool {
    ||| s.len() <= max_chars
    ||| exists|n: nat| #[trigger]
        says(s.skip(max_chars as int), "...[truncated "@, n, " chars]"@)
}

/// Whether every string at any depth of a value is short.
pub open spec fn all_short(v: JsonView, max_chars: nat) -> bool
    decreases v,
{
    match v {
        JsonView::Text(s) => is_short(s, max_chars),
        JsonView::Array(items) => all_items_short(items, max_chars),
        JsonView::Object(fields) => all_fields_short(fields, max_chars),
        _ => true,
    }
}

/// Whether every string at any depth of some values is short.
pub open spec fn all_items_short(items: Seq<JsonView>, max_chars: nat) -> bool
    decreases items,
{
    items.len() > 0 ==> all_short(items.last(), max_chars) && all_items_short(
        items.drop_last(),
        max_chars,
    )
}

/// Whether every string at any depth of some fields is short.
pub open spec fn all_fields_short(fields: Seq<FieldView>, max_chars: nat) -> bool
    decreases fields,
{
    fields.len() > 0 ==> all_short(fields.last().value, max_chars) && all_fields_short(
        fields.drop_last(),
        max_chars,
    )
}

/// No string at any depth of a value with cut strings has more characters than it may have, but for
/// the mark.
pub proof fn law_no_string_stays_long(v: JsonView, max_chars: nat)
    ensures
        all_short(truncation::cut_strings(v, max_chars), max_chars),
    decreases v,
{
    match v {
        JsonView::Text(s) => {
            law_strings_are_cut(s, max_chars);
            let n = (s.len() - max_chars) as nat;
            lemma_says("...[truncated "@, n, " chars]"@);
        },
        JsonView::Array(items) => {
            lemma_all_items_short(items, max_chars);
        },
        JsonView::Object(fields) => {
            lemma_all_fields_short(fields, max_chars);
        },
        _ => {},
    }
}

proof fn lemma_all_items_short(items: Seq<JsonView>, max_chars: nat)
    ensures
        all_items_short(truncation::cut_items(items, max_chars), max_chars),
    decreases items,
{
    if items.len() > 0 {
        let front = items.drop_last();
        law_no_string_stays_long(items.last(), max_chars);
        lemma_all_items_short(front, max_chars);
        assert(truncation::cut_items(items, max_chars).drop_last() =~= truncation::cut_items(
            front,
            max_chars,
        ));
    }
}

proof fn lemma_all_fields_short(fields: Seq<FieldView>, max_chars: nat)
    ensures
        all_fields_short(truncation::cut_fields(fields, max_chars), max_chars),
    decreases fields,
{
    if fields.len() > 0 {
        let front = fields.drop_last();
        law_no_string_stays_long(fields.last().value, max_chars);
        lemma_all_fields_short(front, max_chars);
        assert(truncation::cut_fields(fields, max_chars).drop_last() =~= truncation::cut_fields(
            front,
            max_chars,
        ));
    }
}

/// The bytes of the strings in a value: those of a string itself, one more item or field adds its
/// own, and keys and what holds no string count for nothing.
pub proof fn law_bytes_of_strings(
    v: JsonView,
    items: Seq<JsonView>,
    fields: Seq<FieldView>,
    key: Seq<char>,
    s: Seq<char>,
)
    ensures
        truncation::string_bytes(JsonView::Text(s)) == text::utf8_len(s),
        truncation::string_bytes(JsonView::Array(items.push(v))) == truncation::string_bytes(
            JsonView::Array(items),
        ) + truncation::string_bytes(v),
        truncation::string_bytes(JsonView::Object(fields.push(FieldView { key, value: v })))
            == truncation::string_bytes(JsonView::Object(fields)) + truncation::string_bytes(v),
        truncation::string_bytes(JsonView::Array(Seq::empty())) == 0,
        truncation::string_bytes(JsonView::Object(Seq::empty())) == 0,
        !(v is Text) && !(v is Array) && !(v is Object) ==> truncation::string_bytes(v) == 0,
{
    assert(items.push(v).drop_last() =~= items);
    assert(fields.push(FieldView { key, value: v }).drop_last() =~= fields);
}

// ---------------------------------------------------------------------------
// White space
// ---------------------------------------------------------------------------

/// The end of a line loses its white space, and nothing but that.
pub proof fn law_lines_lose_white_space_at_the_end(line: Seq<char>)
    ensures
        ({
            let cut = text::trim_end(line);
            &&& cut.is_prefix_of(line)
            &&& text::blank(line.skip(cut.len() as int))
            &&& cut.len() > 0 ==> !text::white_space(cut.last())
        }),
    decreases line.len(),
{
    if line.len() > 0 && text::white_space(line.last()) {
        let front = line.drop_last();
        law_lines_lose_white_space_at_the_end(front);
        let cut = text::trim_end(line);
        let rest = line.skip(cut.len() as int);
        assert(cut =~= line.take(cut.len() as int));
        assert forall|i: int| 0 <= i < rest.len() implies text::white_space(#[trigger] rest[i]) by {
            if i < rest.len() - 1 {
                assert(rest[i] == front.skip(cut.len() as int)[i]);
            }
        }
    } else {
        assert(line =~= line.take(line.len() as int));
    }
}

/// Whether the last line of a text is blank.
pub open spec fn ends_blank(s: Seq<char>) -> bool {
    exists|start: int|
        0 <= start <= s.len() && (start == 0 || s[start - 1] == '\n') && text::blank(
            #[trigger] s.skip(start),
        )
}

/// A single line becomes the line without white space at its end. One more line behind a text adds
/// itself without that white space, on a line of its own unless nothing was before it; a blank line
/// adds an empty one, unless nothing was before it or the line before it is blank too.
pub proof fn law_white_space_is_compressed_line_by_line(s: Seq<char>, line: Seq<char>)
    requires
        compression_laws::free_of_line_feeds(line),
    ensures
        truncation::compressed(line) == text::trim_end(line),
        ({
            let before = truncation::compressed(s);
            let after = truncation::compressed(s + seq!['\n'] + line);
            &&& !text::blank(line) && before.len() > 0 ==> after == before + seq!['\n']
                + text::trim_end(line)
            &&& !text::blank(line) && before.len() == 0 ==> after == text::trim_end(line)
            &&& text::blank(line) && (before.len() == 0 || ends_blank(s)) ==> after == before
            &&& text::blank(line) && before.len() > 0 && !ends_blank(s) ==> after == before
                + seq!['\n']
        }),
{
    let sep = seq!['\n'];
    // A line of its own.
    compression_laws::lemma_pieces_of_joined(seq![line]);
    assert(text::join(seq![line], sep) =~= line);
    reveal_with_fuel(truncation::squeezed, 2);
    assert(seq![line].drop_last() =~= Seq::<Seq<char>>::empty());
    assert(truncation::compressed(line) =~= text::trim_end(line));
    // A line behind others.
    let pieces = text::pieces_of(s);
    compression_laws::lemma_pieces_join(s);
    compression_laws::lemma_pieces_are_free_of_line_feeds(s);
    let more = pieces.push(line);
    text::lemma_join_push(pieces, line, sep);
    assert forall|i: int| 0 <= i < more.len() implies compression_laws::free_of_line_feeds(
        #[trigger] more[i],
    ) by {
        if i < pieces.len() {
            assert(more[i] == pieces[i]);
        }
    }
    compression_laws::lemma_pieces_of_joined(more);
    assert(more.drop_last() =~= pieces);
    assert(more[more.len() - 2] == pieces.last());
    law_blank_texts_are_white_space(line);
    law_blank_texts_are_white_space(pieces.last());
    lemma_last_piece(s);
    let before = truncation::compressed(s);
    assert(before.push('\n') =~= before + sep);
}

/// A text is blank if nothing is left of it without the white space at its end.
pub proof fn law_blank_texts_are_white_space(line: Seq<char>)
    ensures
        text::blank(line) <==> text::trim_end(line).len() == 0,
{
    law_lines_lose_white_space_at_the_end(line);
    let cut = text::trim_end(line);
    if cut.len() > 0 {
        assert(cut.last() == line[cut.len() - 1]);
    } else {
        assert(line.skip(0) =~= line);
    }
}

/// The last line of a text is blank where its last piece is.
proof fn lemma_last_piece(s: Seq<char>)
    ensures
        ends_blank(s) <==> text::blank(text::pieces_of(s).last()),
{
    let sep = seq!['\n'];
    let pieces = text::pieces_of(s);
    compression_laws::lemma_pieces_join(s);
    compression_laws::lemma_pieces_are_free_of_line_feeds(s);
    let last = pieces.last();
    assert(compression_laws::free_of_line_feeds(last));
    let n = s.len() - last.len();
    if pieces.len() > 1 {
        let front = text::join(pieces.drop_last(), sep);
        assert(s == front + sep + last);
        assert(s[n - 1] == '\n');
    } else {
        assert(s == last);
    }
    assert(n >= 0);
    assert(s.skip(n) =~= last);
    if ends_blank(s) {
        let start = choose|start: int|
            0 <= start <= s.len() && (start == 0 || s[start - 1] == '\n') && text::blank(
                #[trigger] s.skip(start),
            );
        if start > n {
            assert(s[start - 1] == last[start - 1 - n]);
        }
        assert forall|i: int| 0 <= i < last.len() implies text::white_space(#[trigger] last[i]) by {
            assert(last[i] == s.skip(start)[i + n - start]);
        }
    }
}

/// A text that is not blank becomes the text with its white space compressed; a blank one stays.
pub proof fn law_texts_lose_white_space(s: Seq<char>)
    ensures
        text::blank(s) ==> truncation::compressed_field(s) == s,
        !text::blank(s) ==> truncation::compressed_field(s) == truncation::compressed(s),
{
    let pieces = text::pieces_of(s);
    compression_laws::lemma_pieces_join(s);
    lemma_squeezed_is_shorter(pieces);
}

proof fn lemma_squeezed_is_shorter(pieces: Seq<Seq<char>>)
    ensures
        ({
            let whole = text::join(pieces, seq!['\n']);
            let squeezed = truncation::squeezed(pieces);
            &&& text::utf8_len(squeezed) <= text::utf8_len(whole)
            &&& text::utf8_len(squeezed) == text::utf8_len(whole) ==> squeezed == whole
        }),
    decreases pieces.len(),
{
    if pieces.len() > 0 {
        let sep = seq!['\n'];
        let front = pieces.drop_last();
        let last = pieces.last();
        let line = text::trim_end(last);
        let before = truncation::squeezed(front);
        let whole_before = text::join(front, sep);
        lemma_squeezed_is_shorter(front);
        assert(pieces =~= front.push(last));
        text::lemma_join_push(front, last, sep);
        lemma_trimmed_is_shorter(last);
        text::lemma_ascii_byte('\n');
        text::lemma_encode_concat(whole_before, sep);
        text::lemma_encode_concat(whole_before + sep, last);
        text::lemma_encode_concat(before, sep);
        text::lemma_encode_concat(before + sep, line);
        assert(before.push('\n') =~= before + sep);
        text::lemma_utf8_len_bound(last);
        text::lemma_utf8_len_bound(whole_before);
        assert(encode_utf8(Seq::<char>::empty()).len() == 0);
        if line.len() == 0 {
            assert(line =~= Seq::empty());
        }
        if before.len() == 0 {
            assert(before =~= Seq::empty());
        }
    }
}

proof fn lemma_trimmed_is_shorter(s: Seq<char>)
    ensures
        text::utf8_len(text::trim_end(s)) <= text::utf8_len(s),
        text::utf8_len(text::trim_end(s)) == text::utf8_len(s) ==> text::trim_end(s) == s,
{
    if s.len() > 0 && text::white_space(s.last()) {
        compression_laws::lemma_trimmed_bytes(s.drop_last());
        text::lemma_utf8_len_push(s.drop_last(), s.last());
        assert(s.drop_last().push(s.last()) =~= s);
    }
}

} // verus!
