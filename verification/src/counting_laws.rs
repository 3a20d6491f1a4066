//! What of a request is counted in tokens.

use vstd::prelude::*;

use crate::chain_laws;
use crate::json::JsonView;
use crate::json_text;
use crate::prompt;
use crate::prompt::{SourceView, StepView};
use crate::request::{MessageView, RequestView, SystemView, ToolView};
use crate::segments;
use crate::text;

verus! {

// ---------------------------------------------------------------------------
// Content blocks
// ---------------------------------------------------------------------------

/// What is said or thought is counted as it stands: the string under `text` of a text block, under
/// `thinking` of a thought, under `data` of a hidden thought.
pub proof fn law_what_is_said_is_counted(v: JsonView, s: Seq<char>)
    requires
        ({
            ||| json_text::field(v, "type"@) == Some(JsonView::Text("text"@)) && json_text::field(
                v,
                "text"@,
            ) == Some(JsonView::Text(s))
            ||| json_text::field(v, "type"@) == Some(JsonView::Text("thinking"@))
                && json_text::field(v, "thinking"@) == Some(JsonView::Text(s))
            ||| json_text::field(v, "type"@) == Some(JsonView::Text("redacted_thinking"@))
                && json_text::field(v, "data"@) == Some(JsonView::Text(s))
        }),
    ensures
        prompt::block_counted_text(v) == s,
{
    chain_laws::lemma_kinds_are_different();
}

/// A call of a tool is counted by the name of the tool, a space and the input; by the input alone
/// where there is no name.
pub proof fn law_tool_calls_are_counted(v: JsonView, name: Seq<char>, input: JsonView)
    requires
        json_text::field(v, "type"@) == Some(JsonView::Text("tool_use"@)),
        json_text::field(v, "input"@) == Some(input),
    ensures
        ({
            let counted = prompt::block_counted_text(v);
            let written = json_text::canonical(input);
            &&& json_text::field(v, "name"@) == Some(JsonView::Text(name)) && name.len() > 0 ==> {
                &&& counted.len() == name.len() + 1 + written.len()
                &&& counted.take(name.len() as int) == name
                &&& counted[name.len() as int] == ' '
                &&& counted.skip(name.len() as int + 1) == written
            }
            &&& !(json_text::field(v, "name"@) is Some && json_text::field(v, "name"@)->0 is Text)
                ==> counted == written
            &&& json_text::field(v, "name"@) == Some(JsonView::Text(Seq::empty())) ==> counted
                == written
        }),
{
    chain_laws::lemma_kinds_are_different();
    reveal_strlit(" ");
    let counted = prompt::block_counted_text(v);
    let written = json_text::canonical(input);
    if json_text::field(v, "name"@) == Some(JsonView::Text(name)) && name.len() > 0 {
        assert(counted.take(name.len() as int) =~= name);
        assert(counted.skip(name.len() as int + 1) =~= written);
    }
}

/// The text of a tool result is counted as it stands.
pub proof fn law_result_texts_are_counted(v: JsonView, s: Seq<char>)
    requires
        json_text::field(v, "type"@) == Some(JsonView::Text("tool_result"@)),
        json_text::field(v, "content"@) == Some(JsonView::Text(s)),
    ensures
        prompt::block_counted_text(v) == s,
{
    chain_laws::lemma_kinds_are_different();
}

/// A tool result without content, or with a list of no blocks, is not counted; one whose content is
/// neither a text nor a list is counted by how that is written.
pub proof fn law_other_results_are_counted(v: JsonView, w: JsonView)
    requires
        json_text::field(v, "type"@) == Some(JsonView::Text("tool_result"@)),
    ensures
        json_text::field(v, "content"@) is None ==> prompt::block_counted_text(v).len() == 0,
        json_text::field(v, "content"@) == Some(JsonView::Array(Seq::empty()))
            ==> prompt::block_counted_text(v).len() == 0,
        json_text::field(v, "content"@) == Some(w) && !(w is Text) && !(w is Array)
            ==> prompt::block_counted_text(v) == json_text::canonical(w),
{
    chain_laws::lemma_kinds_are_different();
}

/// Whether a block is an image.
pub open spec fn is_image_block(v: JsonView) -> bool {
    json_text::field(v, "type"@) == Some(JsonView::Text("image"@))
}

/// One more block in a tool result adds its counted text, behind a space where anything was counted
/// before; an image, or a block that counts for nothing, adds nothing.
pub proof fn law_result_blocks_are_counted(
    fewer: JsonView,
    more: JsonView,
    blocks: Seq<JsonView>,
    last: JsonView,
)
    requires
        json_text::field(fewer, "type"@) == Some(JsonView::Text("tool_result"@)),
        json_text::field(more, "type"@) == Some(JsonView::Text("tool_result"@)),
        json_text::field(fewer, "content"@) == Some(JsonView::Array(blocks)),
        json_text::field(more, "content"@) == Some(JsonView::Array(blocks.push(last))),
    ensures
        ({
            let before = prompt::block_counted_text(fewer);
            let after = prompt::block_counted_text(more);
            let added = prompt::block_counted_text(last);
            &&& is_image_block(last) || added.len() == 0 ==> after == before
            &&& !is_image_block(last) && added.len() > 0 && before.len() == 0 ==> after == added
            &&& !is_image_block(last) && added.len() > 0 && before.len() > 0 ==> {
                &&& after.len() == before.len() + 1 + added.len()
                &&& after.take(before.len() as int) == before
                &&& after[before.len() as int] == ' '
                &&& after.skip(before.len() as int + 1) == added
            }
        }),
{
    chain_laws::lemma_kinds_are_different();
    reveal_strlit(" ");
    let parts = prompt::counted_parts(blocks);
    lemma_parts_count(blocks);
    assert(blocks.push(last).drop_last() =~= blocks);
    let before = prompt::block_counted_text(fewer);
    let after = prompt::block_counted_text(more);
    let added = prompt::block_counted_text(last);
    assert(before == text::join(parts, " "@));
    if !is_image_block(last) && added.len() > 0 {
        text::lemma_join_push(parts, added, " "@);
        if before.len() > 0 {
            assert(after == before + " "@ + added);
            assert(after.take(before.len() as int) =~= before);
            assert(after.skip(before.len() as int + 1) =~= added);
        } else {
            assert(parts.len() == 0);
        }
    }
}

/// Where anything is counted, the counted texts are not empty.
proof fn lemma_parts_count(blocks: Seq<JsonView>)
    ensures
        text::join(prompt::counted_parts(blocks), " "@).len() == 0 <==> prompt::counted_parts(
            blocks,
        ).len() == 0,
    decreases blocks.len(),
{
    if blocks.len() > 0 {
        lemma_parts_count(blocks.drop_last());
        let before = prompt::counted_parts(blocks.drop_last());
        let item = blocks.last();
        let counted = prompt::block_counted_text(item);
        if !(json_text::text_field(item, "type"@) == Some("image"@) || counted.len() == 0) {
            text::lemma_join_push(before, counted, " "@);
        }
    }
}

/// A tool result that holds one block of text is counted by that text.
pub proof fn law_single_result_text_is_counted(v: JsonView, block: JsonView, s: Seq<char>)
    requires
        json_text::field(v, "type"@) == Some(JsonView::Text("tool_result"@)),
        json_text::field(v, "content"@) == Some(JsonView::Array(seq![block])),
        json_text::field(block, "type"@) == Some(JsonView::Text("text"@)),
        json_text::field(block, "text"@) == Some(JsonView::Text(s)),
    ensures
        prompt::block_counted_text(v) == s,
{
    chain_laws::lemma_kinds_are_different();
    law_what_is_said_is_counted(block, s);
    reveal_with_fuel(prompt::counted_parts, 2);
    let none = Seq::<JsonView>::empty();
    assert(seq![block].drop_last() =~= none);
    assert(seq![block].last() == block);
    assert(prompt::counted_parts(none) =~= Seq::empty());
    if s.len() > 0 {
        assert(prompt::counted_parts(seq![block]) =~= seq![s]);
    } else {
        assert(prompt::counted_parts(seq![block]) =~= Seq::empty());
        assert(s =~= Seq::empty());
    }
}

/// The content of a tool result is counted as the result is.
pub proof fn law_contents_are_counted_as_their_results(v: JsonView, content: JsonView)
    requires
        json_text::field(v, "type"@) == Some(JsonView::Text("tool_result"@)),
        json_text::field(v, "content"@) == Some(content),
    ensures
        prompt::content_counted_text(content) == prompt::block_counted_text(v),
{
    chain_laws::lemma_kinds_are_different();
}

/// An image is not counted as text.
pub proof fn law_images_are_not_counted_as_text(v: JsonView)
    requires
        is_image_block(v),
    ensures
        prompt::block_counted_text(v).len() == 0,
{
    chain_laws::lemma_kinds_are_different();
}

/// Whether a block is of none of the kinds that are read field by field.
pub open spec fn is_of_another_kind(v: JsonView) -> bool {
    match json_text::field(v, "type"@) {
        Some(JsonView::Text(kind)) => {
            &&& kind != "text"@
            &&& kind != "thinking"@
            &&& kind != "redacted_thinking"@
            &&& kind != "tool_use"@
            &&& kind != "tool_result"@
            &&& kind != "image"@
        },
        _ => true,
    }
}

/// A block of another kind is counted by how it is written.
pub proof fn law_other_blocks_are_counted(v: JsonView)
    requires
        is_of_another_kind(v),
    ensures
        prompt::block_counted_text(v) == json_text::canonical(v),
{
    lemma_kinds_are_not_empty();
}

pub proof fn lemma_kinds_are_not_empty()
    ensures
        "text"@.len() > 0,
        "thinking"@.len() > 0,
        "redacted_thinking"@.len() > 0,
        "tool_use"@.len() > 0,
        "tool_result"@.len() > 0,
        "image"@.len() > 0,
{
    reveal_strlit("text");
    reveal_strlit("thinking");
    reveal_strlit("redacted_thinking");
    reveal_strlit("tool_use");
    reveal_strlit("tool_result");
    reveal_strlit("image");
}

// ---------------------------------------------------------------------------
// Requests
// ---------------------------------------------------------------------------

pub proof fn lemma_sources_concat(a: Seq<StepView>, b: Seq<StepView>)
    ensures
        segments::sources(a + b) == segments::sources(a) + segments::sources(b),
    decreases b.len(),
{
    if b.len() == 0 {
        assert(a + b =~= a);
        assert(segments::sources(a) + segments::sources(b) =~= segments::sources(a));
    } else {
        lemma_sources_concat(a, b.drop_last());
        assert((a + b).drop_last() =~= a + b.drop_last());
        assert(segments::sources(a + b) =~= segments::sources(a) + segments::sources(b));
    }
}

pub proof fn lemma_sources_push(a: Seq<StepView>, s: StepView)
    ensures
        segments::sources(a.push(s)) == match s {
            StepView::Feed { signature: _, source: Some(x) } => segments::sources(a).push(x),
            _ => segments::sources(a),
        },
{
    assert(a.push(s).drop_last() =~= a);
}

/// Everything in the prompt of a request that is counted.
pub open spec fn counted_in(req: RequestView) -> Seq<SourceView> {
    segments::sources(prompt::request_steps(req))
}

/// A request without tools, system prompt and messages has nothing to be counted.
pub proof fn law_an_empty_request_counts_for_nothing(req: RequestView)
    requires
        req.tools is None || req.tools->0.len() == 0,
        req.system is None || req.system->0.len() == 0,
        req.messages.len() == 0,
    ensures
        counted_in(req).len() == 0,
{
}

/// What is counted of a request is what is counted of its tools, of its system prompt and of its
/// messages, in this order.
pub proof fn law_parts_are_counted_in_order(req: RequestView)
    ensures
        counted_in(req) == counted_in(
            RequestView { system: None, messages: Seq::empty(), ..req },
        ) + counted_in(RequestView { tools: None, messages: Seq::empty(), ..req }) + counted_in(
            RequestView { tools: None, system: None, ..req },
        ),
{
    let none = Seq::<StepView>::empty();
    let tools = prompt::tool_steps(match req.tools {
        Some(t) => t,
        None => Seq::empty(),
    });
    let systems = prompt::system_steps(match req.system {
        Some(s) => s,
        None => Seq::empty(),
    });
    let said = prompt::message_steps(req.messages);
    assert(prompt::tool_steps(Seq::empty()) =~= none);
    assert(prompt::system_steps(Seq::empty()) =~= none);
    assert(prompt::message_steps(Seq::empty()) =~= none);
    lemma_sources_concat(tools, systems);
    lemma_sources_concat(tools + systems, said);
    assert(tools + none + none =~= tools);
    assert(none + systems + none =~= systems);
    assert(none + none + said =~= said);
}

/// One more tool is counted by its name, its description and its schema, with spaces between them.
pub proof fn law_tools_are_counted(req: RequestView, tools: Seq<ToolView>, t: ToolView)
    requires
        req.system is None,
        req.messages.len() == 0,
    ensures
        counted_in(RequestView { tools: Some(tools.push(t)), ..req }) == counted_in(
            RequestView { tools: Some(tools), ..req },
        ).push(
            SourceView::Text(
                t.name + seq![' '] + t.description + seq![' '] + json_text::compact(
                    JsonView::Object(t.input_schema),
                ),
            ),
        ),
{
    let none = Seq::<StepView>::empty();
    reveal_strlit(" ");
    assert(" "@ =~= seq![' ']);
    let a = prompt::tool_steps(tools);
    let b = prompt::tool_steps(tools.push(t));
    assert(tools.push(t).drop_last() =~= tools);
    let feed = prompt::feed_text(prompt::tool_signature_text(t), prompt::tool_counted_text(t));
    lemma_sources_push(a, feed);
    lemma_sources_concat(a.push(feed), prompt::mark_steps(t.cache_control));
    lemma_marks_count_for_nothing(t.cache_control);
    assert(prompt::system_steps(Seq::empty()) =~= none);
    assert(prompt::message_steps(req.messages) =~= none);
    assert(a + none + none =~= a);
    assert(b + none + none =~= b);
    assert(segments::sources(a.push(feed)) + Seq::empty() =~= segments::sources(a.push(feed)));
}

pub proof fn lemma_marks_count_for_nothing(cache_control: Option<Option<Seq<char>>>)
    ensures
        segments::sources(prompt::mark_steps(cache_control)) == Seq::<SourceView>::empty(),
{
    reveal_with_fuel(segments::sources, 2);
    let mark = prompt::mark_steps(cache_control);
    if mark.len() > 0 {
        assert(mark.drop_last() =~= Seq::<StepView>::empty());
    }
}

/// One more block of the system prompt is counted by its text, and by nothing where it is empty.
pub proof fn law_system_blocks_are_counted(
    req: RequestView,
    systems: Seq<SystemView>,
    s: SystemView,
)
    requires
        req.messages.len() == 0,
    ensures
        ({
            let before = counted_in(RequestView { system: Some(systems), ..req });
            let after = counted_in(RequestView { system: Some(systems.push(s)), ..req });
            &&& s.text.len() > 0 ==> after == before.push(SourceView::Text(s.text))
            &&& s.text.len() == 0 ==> after == before
        }),
{
    let none = Seq::<StepView>::empty();
    let tools = prompt::tool_steps(match req.tools {
        Some(t) => t,
        None => Seq::empty(),
    });
    let a = prompt::system_steps(systems);
    let b = prompt::system_steps(systems.push(s));
    assert(systems.push(s).drop_last() =~= systems);
    let feed = prompt::feed_text(prompt::system_signature_text(s), s.text);
    let mark = prompt::mark_steps(s.cache_control);
    assert(prompt::message_steps(req.messages) =~= none);
    assert(tools + a + none =~= tools + a);
    assert(tools + b + none =~= (tools + a).push(feed) + mark);
    lemma_sources_push(tools + a, feed);
    lemma_sources_concat((tools + a).push(feed), mark);
    lemma_marks_count_for_nothing(s.cache_control);
    assert(segments::sources((tools + a).push(feed)) + Seq::empty() =~= segments::sources(
        (tools + a).push(feed),
    ));
}

/// The request with one more message.
pub open spec fn with_message(req: RequestView, m: MessageView) -> RequestView {
    RequestView { messages: req.messages.push(m), ..req }
}

/// The steps of a request with one more message.
pub proof fn lemma_steps_of_message(req: RequestView, m: MessageView)
    ensures
        prompt::request_steps(with_message(req, m)) == (prompt::request_steps(req).push(
            StepView::Feed { signature: m.role, source: None },
        ) + prompt::content_steps(m.content)).push(StepView::MessageEnd),
{
    let a = prompt::request_steps(req);
    assert(req.messages.push(m).drop_last() =~= req.messages);
    assert(prompt::request_steps(with_message(req, m)) =~= (a.push(
        StepView::Feed { signature: m.role, source: None },
    ) + prompt::content_steps(m.content)).push(StepView::MessageEnd));
}

proof fn lemma_counted_of_message(req: RequestView, m: MessageView)
    ensures
        counted_in(with_message(req, m)) == counted_in(req) + segments::sources(
            prompt::content_steps(m.content),
        ),
{
    lemma_steps_of_message(req, m);
    let a = prompt::request_steps(req);
    let role = StepView::Feed { signature: m.role, source: None };
    let content = prompt::content_steps(m.content);
    lemma_sources_push(a, role);
    lemma_sources_concat(a.push(role), content);
    lemma_sources_push(a.push(role) + content, StepView::MessageEnd);
}

/// One more message with a text is counted by that text. One that is empty, or has neither a text
/// nor a list of blocks, is not counted; roles never are.
pub proof fn law_messages_are_counted(req: RequestView, m: MessageView, s: Seq<char>)
    ensures
        m.content == JsonView::Text(s) && s.len() > 0 ==> counted_in(with_message(req, m))
            == counted_in(req).push(SourceView::Text(s)),
        m.content == JsonView::Text(Seq::empty()) || m.content == JsonView::Array(Seq::empty()) || (
        !(m.content is Text) && !(m.content is Array)) ==> counted_in(with_message(req, m))
            == counted_in(req),
{
    lemma_counted_of_message(req, m);
    let content = prompt::content_steps(m.content);
    let none = Seq::<StepView>::empty();
    if m.content is Text {
        assert(content.drop_last() =~= none);
        assert(segments::sources(none) =~= Seq::empty());
        if m.content->Text_0.len() > 0 {
            assert(counted_in(req) + segments::sources(content) =~= counted_in(req).push(
                SourceView::Text(m.content->Text_0),
            ));
        } else {
            assert(counted_in(req) + segments::sources(content) =~= counted_in(req));
        }
    } else if !(m.content is Array && m.content->Array_0.len() > 0) {
        assert(content =~= none);
        assert(counted_in(req) + segments::sources(content) =~= counted_in(req));
    }
}

/// One more block in the last message is counted as the image that it is, or else by its counted
/// text where there is any.
pub proof fn law_blocks_are_counted(
    req: RequestView,
    role: Seq<char>,
    blocks: Seq<JsonView>,
    last: JsonView,
)
    ensures
        ({
            let before = counted_in(
                with_message(req, MessageView { role, content: JsonView::Array(blocks) }),
            );
            let after = counted_in(
                with_message(
                    req,
                    MessageView { role, content: JsonView::Array(blocks.push(last)) },
                ),
            );
            let counted = prompt::block_counted_text(last);
            &&& !is_image_block(last) && counted.len() > 0 ==> after == before.push(
                SourceView::Text(counted),
            )
            &&& !is_image_block(last) && counted.len() == 0 ==> after == before
            &&& is_image_block(last) ==> after.len() == before.len() + 1 && after.drop_last()
                == before && is_image_of(last, after.last())
        }),
{
    let a = MessageView { role, content: JsonView::Array(blocks) };
    let b = MessageView { role, content: JsonView::Array(blocks.push(last)) };
    lemma_counted_of_message(req, a);
    lemma_counted_of_message(req, b);
    assert(blocks.push(last).drop_last() =~= blocks);
    let x = prompt::block_steps(blocks);
    let feed = prompt::block_feed(last);
    let mark = prompt::mark_steps(prompt::block_mark(last));
    lemma_sources_push(x, feed);
    lemma_sources_concat(x.push(feed), mark);
    lemma_marks_count_for_nothing(prompt::block_mark(last));
    let before = counted_in(with_message(req, a));
    let after = counted_in(with_message(req, b));
    let y = segments::sources(prompt::block_steps(blocks.push(last)));
    assert(y =~= segments::sources(x.push(feed)));
    if is_image_block(last) {
        assert(after.drop_last() =~= before);
    } else if prompt::block_counted_text(last).len() > 0 {
        assert(after =~= before.push(SourceView::Text(prompt::block_counted_text(last))));
    } else {
        assert(after =~= before);
    }
}

/// Whether something counted is the image of a block: with the media type and the data that its
/// source gives, each empty where it gives none.
pub open spec fn is_image_of(block: JsonView, counted: SourceView) -> bool {
    counted matches SourceView::Image { media_type, data } && given(
        block,
        "media_type"@,
        media_type,
    ) && given(block, "data"@, data)
}

/// Whether `s` is the string that the source of an image gives under `key`.
pub open spec fn given(block: JsonView, key: Seq<char>, s: Seq<char>) -> bool {
    match json_text::field(block, "source"@) {
        Some(source) => match json_text::field(source, key) {
            Some(JsonView::Text(t)) => s == t,
            _ => s.len() == 0,
        },
        None => s.len() == 0,
    }
}

// ---------------------------------------------------------------------------
// Tokens
// ---------------------------------------------------------------------------

/// The sum of some counts.
pub open spec fn sum(counts: Seq<u32>) -> int
    decreases counts.len(),
{
    if counts.len() == 0 {
        0
    } else {
        sum(counts.drop_last()) + counts.last()
    }
}

proof fn lemma_tokens_are_the_sum(
    seed: Seq<char>,
    steps: Seq<StepView>,
    counts: Seq<u32>,
    caching: bool,
)
    requires
        segments::sources(steps).len() <= counts.len(),
    ensures
        ({
            let total = sum(counts.take(segments::sources(steps).len() as int));
            let r = segments::read_steps(seed, steps, counts, caching);
            &&& total >= 0
            &&& r.used == segments::sources(steps).len()
            &&& r.prompt_tokens == if total > u32::MAX {
                u32::MAX as int
            } else {
                total
            }
        }),
    decreases steps.len(),
{
    if steps.len() > 0 {
        let front = steps.drop_last();
        lemma_tokens_are_the_sum(seed, front, counts, caching);
        let n = segments::sources(front).len() as int;
        if segments::sources(steps).len() > n {
            assert(counts.take(n + 1).drop_last() =~= counts.take(n));
        }
    }
}

/// The tokens of a prompt are the sum of the counts of everything that is counted in it, or the
/// largest number there is.
pub proof fn law_prompt_tokens_are_the_sum(req: RequestView, credential_id: u64, counts: Seq<u32>)
    requires
        counts.len() == counted_in(req).len(),
    ensures
        segments::reading(req, credential_id, counts).prompt_tokens == if sum(counts) > u32::MAX {
            u32::MAX as int
        } else {
            sum(counts)
        },
{
    lemma_tokens_are_the_sum(
        segments::seed_text(credential_id, req.model, req.tool_choice),
        prompt::request_steps(req),
        counts,
        credential_id != 0,
    );
    assert(counts.take(counts.len() as int) =~= counts);
}

} // verus!
