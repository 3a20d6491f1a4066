//! What compression keeps, and what limits it keeps to.

use vstd::prelude::*;

use crate::compressor;
use crate::compressor::ResultLimits;
use crate::conversation::{CompressionConfig, StateView, ToolView, TurnView, UserView};
use crate::json::{FieldView, JsonView};
use crate::json_text;
use crate::text;
use crate::tool_compression;
use crate::tool_compression::MIN_DESCRIPTION_CHARS;
use crate::truncation;

verus! {

// ---------------------------------------------------------------------------
// Conversations
// ---------------------------------------------------------------------------

/// Where compression is switched off, a conversation stays as it is.
pub proof fn law_disabled_compression_changes_nothing(s: StateView, config: CompressionConfig)
    requires
        !config.enabled,
    ensures
        compressor::compressed_state(s, config) == s,
        compressor::state_with_compressed_tools(s, config) == s,
{
}

/// Whether two messages of the user differ at most in what is said and in the texts of tool
/// results.
pub open spec fn same_but_for_texts(a: UserView, b: UserView) -> bool {
    &&& a.model_id == b.model_id
    &&& a.tools == b.tools
    &&& a.tool_results.len() == b.tool_results.len()
    &&& forall|i: int|
        0 <= i < a.tool_results.len() ==> (#[trigger] a.tool_results[i]).tool_use_id
            == b.tool_results[i].tool_use_id && a.tool_results[i].content.len()
            == b.tool_results[i].content.len()
}

/// Whether two turns are of the same side, and differ at most in what is said, in the texts of tool
/// results and in the inputs of tool calls.
pub open spec fn same_turn(a: TurnView, b: TurnView) -> bool {
    match (a, b) {
        (TurnView::User(x), TurnView::User(y)) => same_but_for_texts(x, y),
        (TurnView::Assistant(x), TurnView::Assistant(y)) => match (x.tool_uses, y.tool_uses) {
            (Some(p), Some(q)) => p.len() == q.len() && forall|i: int|
                0 <= i < p.len() ==> (#[trigger] p[i]).tool_use_id == q[i].tool_use_id && p[i].name
                    == q[i].name,
            (None, None) => true,
            _ => false,
        },
        _ => false,
    }
}

/// Compression removes no turn, and keeps whose turn it is, the ids and names of tool calls, the
/// model and the tools.
pub proof fn law_compression_keeps_the_turns(s: StateView, config: CompressionConfig)
    ensures
        ({
            let c = compressor::compressed_state(s, config);
            &&& c.conversation_id == s.conversation_id
            &&& c.history.len() == s.history.len()
            &&& forall|i: int|
                0 <= i < s.history.len() ==> same_turn(#[trigger] s.history[i], c.history[i])
            &&& same_but_for_texts(s.current, c.current)
        }),
{
}

/// What is said in a turn is at most compressed in its white space.
pub proof fn law_compression_keeps_what_is_said(s: StateView, config: CompressionConfig, i: int)
    requires
        0 <= i < s.history.len(),
    ensures
        ({
            let said = compressor::content_of(s.history[i]);
            let after = compressor::content_of(
                compressor::compressed_state(s, config).history[i],
            );
            after == said || after == truncation::compressed_field(said)
        }),
{
}

/// A blank text is not emptied.
pub proof fn law_blank_texts_stay(s: Seq<char>)
    requires
        text::blank(s),
    ensures
        truncation::compressed_field(s) == s,
{
}

// ---------------------------------------------------------------------------
// White space
// ---------------------------------------------------------------------------

/// The characters of a text that are not white space.
pub open spec fn ink(s: Seq<char>) -> Seq<char>
    decreases s.len(),
{
    if s.len() == 0 {
        Seq::empty()
    } else if text::white_space(s.last()) {
        ink(s.drop_last())
    } else {
        ink(s.drop_last()).push(s.last())
    }
}

proof fn lemma_ink_concat(a: Seq<char>, b: Seq<char>)
    ensures
        ink(a + b) == ink(a) + ink(b),
    decreases b.len(),
{
    if b.len() == 0 {
        assert(a + b =~= a);
        assert(ink(a) + ink(b) =~= ink(a));
    } else {
        lemma_ink_concat(a, b.drop_last());
        assert((a + b).drop_last() =~= a + b.drop_last());
        assert((a + b).last() == b.last());
        assert(ink(a + b) =~= ink(a) + ink(b));
    }
}

proof fn lemma_ink_of_trimmed(s: Seq<char>)
    ensures
        ink(text::trim_end(s)) == ink(s),
    decreases s.len(),
{
    if s.len() > 0 && text::white_space(s.last()) {
        lemma_ink_of_trimmed(s.drop_last());
    }
}

/// The characters of some texts, one after another, that are not white space.
spec fn ink_of_all(parts: Seq<Seq<char>>) -> Seq<char>
    decreases parts.len(),
{
    if parts.len() == 0 {
        Seq::empty()
    } else {
        ink_of_all(parts.drop_last()) + ink(parts.last())
    }
}

proof fn lemma_ink_of_all_concat(a: Seq<Seq<char>>, b: Seq<Seq<char>>)
    ensures
        ink_of_all(a + b) == ink_of_all(a) + ink_of_all(b),
    decreases b.len(),
{
    if b.len() == 0 {
        assert(a + b =~= a);
        assert(ink_of_all(a) + ink_of_all(b) =~= ink_of_all(a));
    } else {
        lemma_ink_of_all_concat(a, b.drop_last());
        assert((a + b).drop_last() =~= a + b.drop_last());
        assert(ink_of_all(a + b) =~= ink_of_all(a) + ink_of_all(b));
    }
}

proof fn lemma_ink_of_pieces(s: Seq<char>)
    ensures
        ink_of_all(text::pieces_of(s)) == ink(s),
    decreases s.len(),
{
    text::lemma_line_end(s);
    let e = text::line_end(s) as int;
    reveal_with_fuel(ink_of_all, 2);
    if e == s.len() {
        assert(seq![s].drop_last() =~= Seq::<Seq<char>>::empty());
        assert(ink_of_all(seq![s]) =~= ink(s));
    } else {
        let line = s.take(e);
        let rest = s.skip(e + 1);
        let first = seq![line];
        lemma_ink_of_pieces(rest);
        lemma_ink_of_all_concat(first, text::pieces_of(rest));
        assert(first.drop_last() =~= Seq::<Seq<char>>::empty());
        assert(ink_of_all(first) =~= ink(line));
        assert(s =~= (line + seq!['\n']) + rest);
        lemma_ink_concat(line, seq!['\n']);
        lemma_ink_concat(line + seq!['\n'], rest);
        reveal_with_fuel(ink, 2);
        assert(seq!['\n'].drop_last() =~= Seq::<char>::empty());
        assert(ink(seq!['\n']) =~= Seq::<char>::empty());
        assert(ink(line) + ink(seq!['\n']) =~= ink(line));
    }
}

proof fn lemma_ink_of_squeezed(pieces: Seq<Seq<char>>)
    ensures
        ink(truncation::squeezed(pieces)) == ink_of_all(pieces),
    decreases pieces.len(),
{
    if pieces.len() > 0 {
        let before = truncation::squeezed(pieces.drop_last());
        let line = text::trim_end(pieces.last());
        lemma_ink_of_squeezed(pieces.drop_last());
        lemma_ink_of_trimmed(pieces.last());
        assert(before.push('\n').drop_last() =~= before);
        assert(ink(before.push('\n')) == ink(before));
        lemma_ink_concat(before.push('\n'), line);
        if line.len() == 0 {
            assert(ink(line) =~= Seq::<char>::empty());
            assert(ink(before) + ink(line) =~= ink(before));
        }
        if before.len() == 0 {
            assert(ink(before) =~= Seq::<char>::empty());
            assert(ink(before) + ink(line) =~= ink(line));
        }
    }
}

/// Compression of white space keeps every other character, in order.
pub proof fn law_only_white_space_is_compressed(s: Seq<char>)
    ensures
        ink(truncation::compressed(s)) == ink(s),
        ink(truncation::compressed_field(s)) == ink(s),
{
    lemma_ink_of_squeezed(text::pieces_of(s));
    lemma_ink_of_pieces(s);
}

/// The lines that compression of white space keeps.
spec fn kept(pieces: Seq<Seq<char>>) -> Seq<Seq<char>>
    decreases pieces.len(),
{
    if pieces.len() == 0 {
        Seq::empty()
    } else {
        let before = kept(pieces.drop_last());
        let line = text::trim_end(pieces.last());
        let after_empty = pieces.len() > 1 && text::trim_end(pieces[pieces.len() - 2]).len() == 0;
        if line.len() > 0 || (before.len() > 0 && !after_empty) {
            before.push(line)
        } else {
            before
        }
    }
}

/// Whether lines are as compression of white space leaves them: without line feeds and without
/// white space at the end, the first not empty, and no two empty ones in a row.
pub open spec fn tidy(lines: Seq<Seq<char>>) -> bool {
    &&& forall|i: int|
        0 <= i < lines.len() ==> text::trim_end(#[trigger] lines[i]) == lines[i]
            && free_of_line_feeds(lines[i])
    &&& lines.len() > 0 ==> lines[0].len() > 0
    &&& forall|i: int, j: int|
        0 <= i < lines.len() && j == i + 1 && j < lines.len() && (#[trigger] lines[i]).len() == 0
            ==> (#[trigger] lines[j]).len() > 0
}

pub open spec fn free_of_line_feeds(s: Seq<char>) -> bool {
    forall|i: int| 0 <= i < s.len() ==> #[trigger] s[i] != '\n'
}

proof fn lemma_trim_end(s: Seq<char>)
    ensures
        text::trim_end(text::trim_end(s)) == text::trim_end(s),
        free_of_line_feeds(s) ==> free_of_line_feeds(text::trim_end(s)),
    decreases s.len(),
{
    if s.len() > 0 && text::white_space(s.last()) {
        lemma_trim_end(s.drop_last());
        if free_of_line_feeds(s) {
            assert forall|i: int| 0 <= i < s.drop_last().len() implies #[trigger] s.drop_last()[i]
                != '\n' by {
                assert(s.drop_last()[i] == s[i]);
            }
        }
    }
}

proof fn lemma_kept_is_tidy(pieces: Seq<Seq<char>>)
    requires
        forall|i: int| 0 <= i < pieces.len() ==> free_of_line_feeds(#[trigger] pieces[i]),
    ensures
        tidy(kept(pieces)),
        pieces.len() > 0 && text::trim_end(pieces.last()).len() > 0 ==> kept(pieces).len() > 0
            && kept(pieces).last() == text::trim_end(pieces.last()),
        truncation::squeezed(pieces) == text::join(kept(pieces), seq!['\n']),
        truncation::squeezed(pieces).len() == 0 <==> kept(pieces).len() == 0,
    decreases pieces.len(),
{
    if pieces.len() > 0 {
        let front = pieces.drop_last();
        let before = kept(front);
        let line = text::trim_end(pieces.last());
        assert forall|i: int| 0 <= i < front.len() implies free_of_line_feeds(
            #[trigger] front[i],
        ) by {
            assert(front[i] == pieces[i]);
        }
        lemma_kept_is_tidy(front);
        assert(free_of_line_feeds(pieces[pieces.len() - 1]));
        lemma_trim_end(pieces.last());
        text::lemma_join_push(before, line, seq!['\n']);
        let after = kept(pieces);
        if pieces.len() > 1 {
            assert(front.last() == pieces[pieces.len() - 2]);
        }
        if after == before.push(line) {
            assert(tidy(after)) by {
                assert forall|i: int| 0 <= i < after.len() implies text::trim_end(
                    #[trigger] after[i],
                ) == after[i] && free_of_line_feeds(after[i]) by {
                    if i < before.len() {
                        assert(after[i] == before[i]);
                    }
                }
                assert forall|i: int, j: int|
                    0 <= i < after.len() && j == i + 1 && j < after.len() && (
                    #[trigger] after[i]).len() == 0 implies (#[trigger] after[j]).len() > 0 by {
                    if j < before.len() {
                        assert(after[i] == before[i] && after[j] == before[j]);
                    } else {
                        assert(after[i] == before.last());
                    }
                }
            }
            if before.len() > 0 {
                assert(truncation::squeezed(front).push('\n') + line =~= truncation::squeezed(front)
                    + seq!['\n'] + line);
                assert(truncation::squeezed(pieces) =~= text::join(before, seq!['\n'])
                    + seq!['\n'] + line);
            }
        }
    }
}

/// Lines that are tidy are all kept.
proof fn lemma_tidy_is_kept(lines: Seq<Seq<char>>, n: int)
    requires
        tidy(lines),
        0 <= n <= lines.len(),
    ensures
        kept(lines.take(n)) == lines.take(n),
    decreases n,
{
    let head = lines.take(n);
    if n > 0 {
        lemma_tidy_is_kept(lines, n - 1);
        assert(head.drop_last() =~= lines.take(n - 1));
        assert(head.last() == lines[n - 1]);
        assert(text::trim_end(lines[n - 1]) == lines[n - 1]);
        if n > 1 {
            assert(head[head.len() - 2] == lines[n - 2]);
            assert(text::trim_end(lines[n - 2]) == lines[n - 2]);
            assert(lines[n - 2].len() == 0 ==> lines[n - 1].len() > 0);
        }
        assert(lines.take(n - 1).push(lines[n - 1]) =~= head);
    } else {
        assert(head =~= Seq::empty());
    }
}

/// Splitting what was joined gives the lines again.
pub proof fn lemma_pieces_of_joined(lines: Seq<Seq<char>>)
    requires
        lines.len() > 0,
        forall|i: int| 0 <= i < lines.len() ==> free_of_line_feeds(#[trigger] lines[i]),
    ensures
        text::pieces_of(text::join(lines, seq!['\n'])) == lines,
    decreases lines.len(),
{
    let whole = text::join(lines, seq!['\n']);
    text::lemma_join_front(lines, seq!['\n']);
    assert(free_of_line_feeds(lines[0]));
    text::lemma_line_end(whole);
    let e = text::line_end(whole) as int;
    if lines.len() == 1 {
        if e < whole.len() {
            assert(whole[e] == '\n');
        }
        assert(lines =~= seq![whole]);
    } else {
        let rest = lines.drop_first();
        let tail = text::join(rest, seq!['\n']);
        let n = lines[0].len() as int;
        assert(whole == lines[0] + (seq!['\n'] + tail));
        assert(whole[n] == '\n');
        if e < n {
            assert(whole[e] == lines[0][e]);
        }
        assert(e == n);
        assert(whole.take(e) =~= lines[0]);
        assert(whole.skip(e + 1) =~= tail);
        assert forall|i: int| 0 <= i < rest.len() implies free_of_line_feeds(
            #[trigger] rest[i],
        ) by {
            assert(rest[i] == lines[i + 1]);
        }
        lemma_pieces_of_joined(rest);
        assert(lines =~= seq![lines[0]] + rest);
    }
}

pub proof fn lemma_pieces_are_free_of_line_feeds(s: Seq<char>)
    ensures
        forall|i: int|
            0 <= i < text::pieces_of(s).len() ==> free_of_line_feeds(
                #[trigger] text::pieces_of(s)[i],
            ),
    decreases s.len(),
{
    text::lemma_line_end(s);
    let e = text::line_end(s) as int;
    if e < s.len() {
        let rest = text::pieces_of(s.skip(e + 1));
        lemma_pieces_are_free_of_line_feeds(s.skip(e + 1));
        assert forall|i: int| 0 <= i < text::pieces_of(s).len() implies free_of_line_feeds(
            #[trigger] text::pieces_of(s)[i],
        ) by {
            if i > 0 {
                assert(text::pieces_of(s)[i] == rest[i - 1]);
            } else {
                assert(text::pieces_of(s)[0] == s.take(e));
            }
        }
    } else {
        assert(text::pieces_of(s)[0] == s);
    }
}

/// Compressing white space twice is the same as compressing it once.
pub proof fn law_compressing_twice_is_compressing_once(s: Seq<char>)
    ensures
        truncation::compressed(truncation::compressed(s)) == truncation::compressed(s),
        truncation::compressed_field(truncation::compressed_field(s))
            == truncation::compressed_field(s),
{
    let pieces = text::pieces_of(s);
    let lines = kept(pieces);
    let once = truncation::compressed(s);
    lemma_pieces_are_free_of_line_feeds(s);
    lemma_kept_is_tidy(pieces);
    if lines.len() == 0 {
        assert(once =~= Seq::empty());
        assert(text::pieces_of(once) =~= seq![once]);
        assert(text::trim_end(once) =~= once);
        assert(seq![once].drop_last() =~= Seq::empty());
        reveal_with_fuel(truncation::squeezed, 2);
        assert(truncation::squeezed(seq![once]) =~= once);
    } else {
        lemma_pieces_of_joined(lines);
        lemma_tidy_is_kept(lines, lines.len() as int);
        assert(lines.take(lines.len() as int) =~= lines);
        lemma_kept_is_tidy(lines);
    }
}

/// A line that is not blank, without the white space at its end, and whether blank lines stand
/// between it and the one before it.
#[verifier::ext_equal]
pub struct SolidLine {
    pub line: Seq<char>,
    pub after_gap: bool,
}

/// The lines of a text that are not blank.
pub open spec fn solid_lines(pieces: Seq<Seq<char>>) -> Seq<SolidLine>
    decreases pieces.len(),
{
    if pieces.len() == 0 {
        Seq::empty()
    } else {
        let before = solid_lines(pieces.drop_last());
        let line = text::trim_end(pieces.last());
        if line.len() == 0 {
            before
        } else {
            before.push(
                SolidLine {
                    line,
                    after_gap: before.len() > 0 && text::trim_end(pieces[pieces.len() - 2]).len()
                        == 0,
                },
            )
        }
    }
}

proof fn lemma_kept_lines(pieces: Seq<Seq<char>>)
    requires
        forall|i: int| 0 <= i < pieces.len() ==> free_of_line_feeds(#[trigger] pieces[i]),
    ensures
        solid_lines(kept(pieces)) == solid_lines(pieces),
        solid_lines(pieces).len() == 0 <==> kept(pieces).len() == 0,
        kept(pieces).len() > 0 ==> (kept(pieces).last().len() == 0 <==> text::trim_end(
            pieces.last(),
        ).len() == 0),
        text::byte_weight(kept(pieces)) <= text::byte_weight(pieces),
    decreases pieces.len(),
{
    if pieces.len() > 0 {
        let front = pieces.drop_last();
        let before = kept(front);
        let line = text::trim_end(pieces.last());
        let after = kept(pieces);
        assert forall|i: int| 0 <= i < front.len() implies free_of_line_feeds(
            #[trigger] front[i],
        ) by {
            assert(front[i] == pieces[i]);
        }
        lemma_kept_lines(front);
        lemma_kept_is_tidy(front);
        lemma_trim_end(pieces.last());
        lemma_trimmed_bytes(pieces.last());
        assert(before.push(line).drop_last() =~= before);
        assert(front.push(pieces.last()) =~= pieces);
        text::lemma_byte_weight_push(before, line);
        text::lemma_byte_weight_push(front, pieces.last());
        if front.len() > 0 {
            assert(front.last() == pieces[pieces.len() - 2]);
        }
        if before.len() > 0 {
            assert(text::trim_end(before[before.len() - 1]) == before[before.len() - 1]);
            assert(before.push(line)[before.len() - 1] == before.last());
        }
    }
}

pub proof fn lemma_trimmed_bytes(s: Seq<char>)
    ensures
        text::utf8_len(text::trim_end(s)) <= text::utf8_len(s),
    decreases s.len(),
{
    if s.len() > 0 && text::white_space(s.last()) {
        lemma_trimmed_bytes(s.drop_last());
        text::lemma_utf8_len_push(s.drop_last(), s.last());
        assert(s.drop_last().push(s.last()) =~= s);
    }
}

pub proof fn lemma_pieces_join(s: Seq<char>)
    ensures
        text::pieces_of(s).len() > 0,
        text::join(text::pieces_of(s), seq!['\n']) == s,
    decreases s.len(),
{
    text::lemma_line_end(s);
    let e = text::line_end(s) as int;
    let pieces = text::pieces_of(s);
    text::lemma_join_front(pieces, seq!['\n']);
    if e < s.len() {
        let rest = s.skip(e + 1);
        lemma_pieces_join(rest);
        assert(pieces.drop_first() =~= text::pieces_of(rest));
        assert(s =~= s.take(e) + (seq!['\n'] + rest));
    }
}

proof fn lemma_tidy_ends(lines: Seq<Seq<char>>)
    requires
        tidy(lines),
        lines.len() > 0,
    ensures
        ({
            let t = text::join(lines, seq!['\n']);
            &&& t.len() > 0
            &&& t[0] != '\n'
            &&& lines.last().len() > 0 ==> t.last() != '\n'
            &&& t.last() == '\n' ==> t.len() > 1 && t[t.len() - 2] != '\n'
        }),
    decreases lines.len(),
{
    let t = text::join(lines, seq!['\n']);
    let n = lines.len() - 1;
    assert(free_of_line_feeds(lines[0]));
    assert(free_of_line_feeds(lines[n]));
    if n > 0 {
        let front = lines.drop_last();
        assert(tidy(front)) by {
            assert forall|i: int| 0 <= i < front.len() implies text::trim_end(#[trigger] front[i])
                == front[i] && free_of_line_feeds(front[i]) by {
                assert(front[i] == lines[i]);
            }
            assert forall|i: int, j: int|
                0 <= i < front.len() && j == i + 1 && j < front.len() && (
                #[trigger] front[i]).len() == 0 implies (#[trigger] front[j]).len() > 0 by {
                assert(front[i] == lines[i] && front[j] == lines[j]);
            }
        }
        lemma_tidy_ends(front);
        let head = text::join(front, seq!['\n']);
        assert(t == head + seq!['\n'] + lines[n]);
        assert(t[0] == head[0]);
        if lines[n].len() > 0 {
            assert(t.last() == lines[n].last());
        } else {
            assert(lines[n - 1].len() > 0);
            assert(front.last() == lines[n - 1]);
            assert(t[t.len() - 2] == head.last());
        }
    }
}

/// Compression of white space makes a text no longer, keeps its lines that are not blank, in order
/// and with their indentation, and leaves one blank line between two of them where there were any
/// and none where there were none. The text does not begin with a line feed, and ends with at most
/// one.
pub proof fn law_compressed_text_is_tidy(s: Seq<char>)
    ensures
        ({
            let c = truncation::compressed(s);
            &&& text::utf8_len(c) <= text::utf8_len(s)
            &&& solid_lines(text::pieces_of(c)) == solid_lines(text::pieces_of(s))
            &&& c.len() > 0 ==> tidy(text::pieces_of(c))
            &&& c.len() > 0 ==> c[0] != '\n'
            &&& c.len() > 1 ==> !(c[c.len() - 1] == '\n' && c[c.len() - 2] == '\n')
        }),
{
    let pieces = text::pieces_of(s);
    let lines = kept(pieces);
    let c = truncation::compressed(s);
    lemma_pieces_are_free_of_line_feeds(s);
    lemma_kept_is_tidy(pieces);
    lemma_kept_lines(pieces);
    lemma_pieces_join(s);
    text::lemma_join_bytes(pieces, '\n');
    text::lemma_join_bytes(lines, '\n');
    if lines.len() == 0 {
        assert(c =~= Seq::empty());
        assert(text::pieces_of(c) =~= seq![c]);
        assert(text::trim_end(c) =~= c);
        assert(seq![c].drop_last() =~= Seq::empty());
        reveal_with_fuel(solid_lines, 2);
    } else {
        lemma_pieces_of_joined(lines);
        lemma_tidy_ends(lines);
    }
}

// ---------------------------------------------------------------------------
// Limits
// ---------------------------------------------------------------------------

/// Whether the string under `text`, where there is one, has at most `max_chars` characters.
pub open spec fn fits(fields: Seq<FieldView>, max_chars: nat) -> bool {
    let i = compressor::position_of(fields, "text"@) as int;
    i < fields.len() && fields[i].value is Text ==> fields[i].value->Text_0.len() <= max_chars
}

/// Whether the texts of all tool results of a message fit.
pub open spec fn results_fit(u: UserView, max_chars: nat) -> bool {
    forall|j: int, k: int|
        0 <= j < u.tool_results.len() && 0 <= k < u.tool_results[j].content.len() ==> fits(
            #[trigger] u.tool_results[j].content[k],
            max_chars,
        )
}

proof fn lemma_cut_object_fits(fields: Seq<FieldView>, l: ResultLimits)
    requires
        l.max_chars > 0,
    ensures
        fits(compressor::cut_object(fields, l), l.max_chars),
{
    let i = compressor::position_of(fields, "text"@) as int;
    if i < fields.len() && fields[i].value is Text {
        truncation::law_shortened_fits(
            fields[i].value->Text_0,
            l.max_chars,
            l.head_lines,
            l.tail_lines,
        );
        compressor::lemma_position_after_update(
            fields,
            "text"@,
            compressor::cut_object(fields, l)[i],
        );
    }
}

proof fn lemma_cut_user_fits(u: UserView, l: ResultLimits)
    requires
        l.max_chars > 0,
    ensures
        results_fit(compressor::user_with_cut_results(u, l), l.max_chars),
{
    let after = compressor::user_with_cut_results(u, l);
    assert forall|j: int, k: int|
        0 <= j < after.tool_results.len() && 0 <= k
            < after.tool_results[j].content.len() implies fits(
        #[trigger] after.tool_results[j].content[k],
        l.max_chars,
    ) by {
        lemma_cut_object_fits(u.tool_results[j].content[k], l);
    }
}

/// After compression every tool result of a conversation has at most the characters that the limit
/// allows.
pub proof fn law_tool_results_fit(s: StateView, config: CompressionConfig)
    requires
        config.enabled,
        config.tool_result_max_chars > 0,
    ensures
        ({
            let c = compressor::compressed_state(s, config);
            let max_chars = config.tool_result_max_chars as nat;
            &&& results_fit(c.current, max_chars)
            &&& forall|i: int|
                0 <= i < c.history.len() ==> ((#[trigger] c.history[i]) matches TurnView::User(u)
                    ==> results_fit(u, max_chars))
        }),
{
    let l = compressor::limits(
        config.tool_result_max_chars,
        config.tool_result_head_lines,
        config.tool_result_tail_lines,
    );
    let a = if config.whitespace_compression {
        compressor::squeezed_state(s)
    } else {
        s
    };
    let c = compressor::compressed_state(s, config);
    lemma_cut_user_fits(a.current, l);
    assert forall|i: int| 0 <= i < c.history.len() implies ((
    #[trigger] c.history[i]) matches TurnView::User(u) ==> results_fit(u, l.max_chars)) by {
        match a.history[i] {
            TurnView::User(u) => {
                lemma_cut_user_fits(u, l);
            },
            _ => {},
        }
    }
}

/// A string that is cut keeps its head, and grows beyond that by no more than the mark.
pub proof fn law_cut_strings_keep_their_head(s: Seq<char>, max_chars: nat)
    ensures
        truncation::head_of(s, max_chars).is_prefix_of(truncation::cut_string(s, max_chars)),
        s.len() > max_chars ==> truncation::cut_string(s, max_chars).len() <= max_chars + 21
            + text::decimal((s.len() - max_chars) as nat).len(),
{
    reveal_strlit("...[truncated ");
    reveal_strlit(" chars]");
    let head = truncation::head_of(s, max_chars);
    let cut = truncation::cut_string(s, max_chars);
    assert(cut.take(head.len() as int) =~= head);
}

/// Cutting the strings of a value keeps its shape: the same items, and the same keys in the same
/// order.
pub proof fn law_cut_values_keep_their_shape(v: JsonView, max_chars: nat)
    ensures
        v matches JsonView::Array(items) ==> truncation::cut_strings(
            v,
            max_chars,
        ) matches JsonView::Array(cut) && cut.len() == items.len(),
        v matches JsonView::Object(fields) ==> truncation::cut_strings(
            v,
            max_chars,
        ) matches JsonView::Object(cut) && cut.len() == fields.len() && forall|i: int|
            0 <= i < fields.len() ==> (#[trigger] cut[i]).key == fields[i].key && cut[i].value
                == truncation::cut_strings(fields[i].value, max_chars),
{
    match v {
        JsonView::Array(items) => {
            lemma_cut_items(items, max_chars);
        },
        JsonView::Object(fields) => {
            lemma_cut_fields(fields, max_chars);
        },
        _ => {},
    }
}

proof fn lemma_cut_items(items: Seq<JsonView>, max_chars: nat)
    ensures
        truncation::cut_items(items, max_chars).len() == items.len(),
    decreases items.len(),
{
    if items.len() > 0 {
        lemma_cut_items(items.drop_last(), max_chars);
    }
}

proof fn lemma_cut_fields(fields: Seq<FieldView>, max_chars: nat)
    ensures
        truncation::cut_fields(fields, max_chars).len() == fields.len(),
        forall|i: int|
            0 <= i < fields.len() ==> (#[trigger] truncation::cut_fields(fields, max_chars)[i])
                == (FieldView {
                key: fields[i].key,
                value: truncation::cut_strings(fields[i].value, max_chars),
            }),
    decreases fields.len(),
{
    if fields.len() > 0 {
        lemma_cut_fields(fields.drop_last(), max_chars);
    }
}

// ---------------------------------------------------------------------------
// Tool definitions
// ---------------------------------------------------------------------------

/// Compression keeps every tool, its name, and the beginning of its description.
pub proof fn law_compression_keeps_the_tools(tools: Seq<ToolView>, max_bytes: nat)
    ensures
        ({
            let c = tool_compression::compressed_tools(tools, max_bytes);
            &&& c.len() == tools.len()
            &&& forall|i: int|
                0 <= i < tools.len() ==> (#[trigger] c[i]).name == tools[i].name
                    && c[i].description.is_prefix_of(tools[i].description)
        }),
{
    let c = tool_compression::compressed_tools(tools, max_bytes);
    let simple = tool_compression::with_simplified_schemas(tools);
    assert forall|i: int| 0 <= i < tools.len() implies (#[trigger] c[i]).name == tools[i].name
        && c[i].description.is_prefix_of(tools[i].description) by {
        let d = tools[i].description;
        assert(d =~= d.take(d.len() as int));
        tool_compression::law_cut_description_is_not_longer(
            d,
            max_bytes,
            tool_compression::tools_bytes(simple),
        );
    }
}

/// Tool definitions that fit stay as they are, and so do all where there is no limit.
pub proof fn law_fitting_tools_stay(tools: Seq<ToolView>, max_bytes: nat)
    requires
        max_bytes == 0 || tool_compression::tools_bytes(tools) <= max_bytes,
    ensures
        tool_compression::compressed_tools(tools, max_bytes) == tools,
{
}

proof fn lemma_reach_is_far(s: Seq<char>, target: nat, from: nat, n: nat)
    requires
        from <= n <= s.len(),
        text::utf8_len(s.take(n as int)) <= target,
    ensures
        tool_compression::reach(s, target, from) >= n,
    decreases s.len() - from,
{
    if from < n {
        text::lemma_utf8_len_take(s, from as int, n as int);
        lemma_reach_is_far(s, target, from + 1, n);
    } else if !(from >= s.len() || text::utf8_len(s.take(from as int)) > target) {
        lemma_reach_grows(s, target, from + 1);
    }
}

proof fn lemma_reach_grows(s: Seq<char>, target: nat, from: nat)
    ensures
        tool_compression::reach(s, target, from) >= from,
    decreases s.len() - from,
{
    if !(from >= s.len() || text::utf8_len(s.take(from as int)) > target) {
        lemma_reach_grows(s, target, from + 1);
    }
}

/// A description keeps at least its first characters, however small the limit.
pub proof fn law_descriptions_keep_their_beginning(s: Seq<char>, max_bytes: nat, size: nat)
    ensures
        truncation::head_of(s, MIN_DESCRIPTION_CHARS as nat).is_prefix_of(
            tool_compression::cut_description(s, max_bytes, size),
        ),
{
    let least = MIN_DESCRIPTION_CHARS as nat;
    let head = truncation::head_of(s, least);
    let cut = tool_compression::cut_description(s, max_bytes, size);
    tool_compression::law_cut_description_is_not_longer(s, max_bytes, size);
    if s.len() > least {
        let proportional = tool_compression::proportional_bytes(
            text::utf8_len(s),
            max_bytes,
            size,
        );
        let target = if proportional > tool_compression::least_bytes(s) {
            proportional
        } else {
            tool_compression::least_bytes(s)
        };
        lemma_reach_is_far(s, target, 0, least);
        tool_compression::lemma_reach(s, target, 0);
        assert(cut.take(head.len() as int) =~= head);
    } else {
        // A short description is kept whole.
        assert(tool_compression::least_bytes(s) == text::utf8_len(s));
        assert(cut.take(head.len() as int) =~= head);
    }
}

/// A simplified schema has no description of its own.
pub proof fn law_simplified_schema_has_no_description(v: JsonView)
    ensures
        json_text::field(tool_compression::simplified(v), "description"@) is None,
{
    match v {
        JsonView::Object(fields) => {
            lemma_no_description(fields);
            lemma_absent_key(tool_compression::simplified_fields(fields), "description"@);
        },
        _ => {},
    }
}

proof fn lemma_no_description(fields: Seq<FieldView>)
    ensures
        forall|i: int|
            0 <= i < tool_compression::simplified_fields(fields).len() ==> (
            #[trigger] tool_compression::simplified_fields(fields)[i]).key != "description"@,
    decreases fields.len(),
{
    if fields.len() > 0 {
        lemma_no_description(fields.drop_last());
    }
}

proof fn lemma_absent_key(fields: Seq<FieldView>, key: Seq<char>)
    requires
        forall|i: int| 0 <= i < fields.len() ==> (#[trigger] fields[i]).key != key,
    ensures
        json_text::find_field(fields, key) is None,
    decreases fields.len(),
{
    if fields.len() > 0 {
        let rest = fields.drop_first();
        assert(fields[0].key != key);
        assert forall|i: int| 0 <= i < rest.len() implies (#[trigger] rest[i]).key != key by {
            assert(rest[i] == fields[i + 1]);
        }
        lemma_absent_key(rest, key);
    }
}

/// The value of a keyword in a simplified schema.
pub open spec fn simplified_keyword(key: Seq<char>, value: JsonView) -> JsonView {
    if tool_compression::holds_schema_map(key) {
        tool_compression::simplified_map(value)
    } else if tool_compression::holds_schema_array(key) {
        tool_compression::simplified_array(value)
    } else if tool_compression::holds_schema(key) {
        tool_compression::simplified(value)
    } else {
        value
    }
}

/// Every keyword but the description is kept, and has the value that it had unless that holds
/// schemas, which are simplified.
pub proof fn law_simplified_schema_keeps_keywords(fields: Seq<FieldView>, key: Seq<char>)
    requires
        key != "description"@,
    ensures
        json_text::field(
            tool_compression::simplified(JsonView::Object(fields)),
            key,
        ) == match json_text::find_field(fields, key) {
            Some(v) => Some(simplified_keyword(key, v)),
            None => None,
        },
    decreases fields.len(),
{
    if fields.len() > 0 {
        let front = fields.drop_last();
        let f = fields.last();
        law_simplified_schema_keeps_keywords(front, key);
        assert(fields =~= front.push(f));
        lemma_find_in_longer(front, f, key);
        let out = tool_compression::simplified_fields(front);
        if f.key != "description"@ {
            lemma_find_in_longer(
                out,
                FieldView { key: f.key, value: simplified_keyword(f.key, f.value) },
                key,
            );
        }
    }
}

/// Looking up a key when a field is appended.
proof fn lemma_find_in_longer(fields: Seq<FieldView>, f: FieldView, key: Seq<char>)
    ensures
        json_text::find_field(fields.push(f), key) == match json_text::find_field(fields, key) {
            Some(v) => Some(v),
            None => if f.key == key {
                Some(f.value)
            } else {
                None
            },
        },
    decreases fields.len(),
{
    let longer = fields.push(f);
    if fields.len() > 0 {
        assert(longer.drop_first() =~= fields.drop_first().push(f));
        lemma_find_in_longer(fields.drop_first(), f, key);
    } else {
        assert(longer.drop_first() =~= Seq::empty());
        assert(json_text::find_field(Seq::empty(), key) is None);
    }
}

/// Simplifying twice is the same as simplifying once.
pub proof fn law_simplifying_twice_is_simplifying_once(v: JsonView)
    ensures
        tool_compression::simplified(tool_compression::simplified(v))
            == tool_compression::simplified(v),
    decreases v,
{
    match v {
        JsonView::Object(fields) => {
            lemma_simplified_fields_twice(fields);
        },
        _ => {},
    }
}

proof fn lemma_simplified_fields_twice(fields: Seq<FieldView>)
    ensures
        tool_compression::simplified_fields(tool_compression::simplified_fields(fields))
            == tool_compression::simplified_fields(fields),
    decreases fields,
{
    if fields.len() > 0 {
        let f = fields.last();
        let front = tool_compression::simplified_fields(fields.drop_last());
        lemma_simplified_fields_twice(fields.drop_last());
        if f.key != "description"@ {
            let g = FieldView { key: f.key, value: simplified_keyword(f.key, f.value) };
            assert(tool_compression::simplified_fields(fields) == front.push(g));
            assert(front.push(g).drop_last() =~= front);
            if tool_compression::holds_schema_map(f.key) {
                lemma_simplified_map_twice(f.value);
            } else if tool_compression::holds_schema_array(f.key) {
                lemma_simplified_array_twice(f.value);
            } else if tool_compression::holds_schema(f.key) {
                law_simplifying_twice_is_simplifying_once(f.value);
            }
        }
    }
}

proof fn lemma_simplified_map_twice(v: JsonView)
    ensures
        tool_compression::simplified_map(tool_compression::simplified_map(v))
            == tool_compression::simplified_map(v),
    decreases v,
{
    match v {
        JsonView::Object(fields) => {
            lemma_simplified_values_twice(fields);
        },
        _ => {},
    }
}

proof fn lemma_simplified_values_twice(fields: Seq<FieldView>)
    ensures
        tool_compression::simplified_values(tool_compression::simplified_values(fields))
            == tool_compression::simplified_values(fields),
    decreases fields,
{
    if fields.len() > 0 {
        let front = tool_compression::simplified_values(fields.drop_last());
        lemma_simplified_values_twice(fields.drop_last());
        law_simplifying_twice_is_simplifying_once(fields.last().value);
        assert(tool_compression::simplified_values(fields).drop_last() =~= front);
    }
}

proof fn lemma_simplified_array_twice(v: JsonView)
    ensures
        tool_compression::simplified_array(tool_compression::simplified_array(v))
            == tool_compression::simplified_array(v),
    decreases v,
{
    match v {
        JsonView::Array(items) => {
            lemma_simplified_items_twice(items);
        },
        _ => {},
    }
}

proof fn lemma_simplified_items_twice(items: Seq<JsonView>)
    ensures
        tool_compression::simplified_items(tool_compression::simplified_items(items))
            == tool_compression::simplified_items(items),
    decreases items,
{
    if items.len() > 0 {
        let front = tool_compression::simplified_items(items.drop_last());
        lemma_simplified_items_twice(items.drop_last());
        law_simplifying_twice_is_simplifying_once(items.last());
        assert(tool_compression::simplified_items(items).drop_last() =~= front);
    }
}

} // verus!
