//! What keeps cached prefixes apart, and what does not.

use vstd::prelude::*;

use crate::chain_laws;
use crate::json::{FieldView, JsonView};
use crate::json_laws;
use crate::json_text;
use crate::prompt;
use crate::prompt::StepView;
use crate::request;
use crate::request::{RequestView, ToolView};
use crate::segments;
use crate::text;

verus! {

// ---------------------------------------------------------------------------
// Fingerprints are those of prefixes
// ---------------------------------------------------------------------------

/// Whether a fingerprint is that of a text which begins with `seed` and with which `prefix` begins.
pub open spec fn fingerprints_prefix(hash: u64, seed: Seq<char>, prefix: Seq<char>) -> bool {
    exists|p: Seq<char>|
        seed.is_prefix_of(p) && p.is_prefix_of(prefix) && hash == #[trigger] segments::fingerprint(
            p,
        )
}

/// Whether fingerprints tell the beginnings of one text from those of another.
pub open spec fn told_apart(x: Seq<char>, y: Seq<char>) -> bool {
    forall|p: Seq<char>, q: Seq<char>|
        p.is_prefix_of(x) && q.is_prefix_of(y) && #[trigger] segments::fingerprint(p)
            == #[trigger] segments::fingerprint(q) ==> p == q
}

pub proof fn lemma_prefix_transitive(a: Seq<char>, b: Seq<char>, c: Seq<char>)
    requires
        a.is_prefix_of(b),
        b.is_prefix_of(c),
    ensures
        a.is_prefix_of(c),
{
    assert(a =~= c.take(a.len() as int));
}

pub proof fn lemma_prefix_of_concat(a: Seq<char>, b: Seq<char>)
    ensures
        a.is_prefix_of(a + b),
        a.is_prefix_of(a),
{
    assert(a =~= (a + b).take(a.len() as int));
    assert(a =~= a.take(a.len() as int));
}

pub proof fn lemma_fingerprints(
    seed: Seq<char>,
    steps: Seq<StepView>,
    counts: Seq<u32>,
    caching: bool,
)
    ensures
        ({
            let r = segments::read_steps(seed, steps, counts, caching);
            &&& seed.is_prefix_of(r.prefix)
            &&& forall|i: int|
                0 <= i < r.segments.len() ==> fingerprints_prefix(
                    (#[trigger] r.segments[i]).hash,
                    seed,
                    r.prefix,
                )
        }),
    decreases steps.len(),
{
    lemma_prefix_of_concat(seed, Seq::empty());
    if steps.len() > 0 {
        let r = segments::read_steps(seed, steps.drop_last(), counts, caching);
        let next = segments::read_steps(seed, steps, counts, caching);
        lemma_fingerprints(seed, steps.drop_last(), counts, caching);
        match steps.last() {
            StepView::Feed { signature, source } => {
                lemma_prefix_of_concat(r.prefix, signature);
                lemma_prefix_transitive(seed, r.prefix, next.prefix);
            },
            _ => {},
        }
        lemma_prefix_of_concat(r.prefix, Seq::empty());
        assert(fingerprints_prefix(segments::fingerprint(r.prefix), seed, r.prefix));
        assert forall|i: int| 0 <= i < next.segments.len() implies fingerprints_prefix(
            (#[trigger] next.segments[i]).hash,
            seed,
            next.prefix,
        ) by {
            if i < r.segments.len() && next.segments[i].hash == r.segments[i].hash {
                let p = choose|p: Seq<char>|
                    seed.is_prefix_of(p) && p.is_prefix_of(r.prefix) && r.segments[i].hash
                        == #[trigger] segments::fingerprint(p);
                lemma_prefix_transitive(p, r.prefix, next.prefix);
            } else {
                assert(next.segments[i].hash == segments::fingerprint(r.prefix));
            }
        }
    }
}

/// Every prefix in the chain has the fingerprint of a text that begins with the account, the model
/// and the choice of tools.
pub proof fn law_fingerprints_are_of_prefixes(
    req: RequestView,
    credential_id: u64,
    counts: Seq<u32>,
    i: int,
)
    requires
        0 <= i < segments::reading(req, credential_id, counts).segments.len(),
    ensures
        fingerprints_prefix(
            segments::reading(req, credential_id, counts).segments[i].hash,
            segments::seed_text(credential_id, req.model, req.tool_choice),
            segments::reading(req, credential_id, counts).prefix,
        ),
{
    lemma_fingerprints(
        segments::seed_text(credential_id, req.model, req.tool_choice),
        prompt::request_steps(req),
        counts,
        credential_id != 0,
    );
}

// ---------------------------------------------------------------------------
// Accounts, models and tool choices are kept apart
// ---------------------------------------------------------------------------

proof fn lemma_account_is_read_off(a: u64, b: u64, x: Seq<char>, y: Seq<char>)
    requires
        "credential:"@ + text::decimal(a as nat) + x == "credential:"@ + text::decimal(b as nat)
            + y,
        x.len() > 0 && x[0] == '{',
        y.len() > 0 && y[0] == '{',
    ensures
        a == b,
        x == y,
{
    let head = "credential:"@;
    let da = text::decimal(a as nat);
    let db = text::decimal(b as nat);
    text::lemma_decimal_digits(a as nat);
    text::lemma_decimal_digits(b as nat);
    assert(head + da + x =~= head + (da + x));
    assert(head + db + y =~= head + (db + y));
    chain_laws::lemma_concat_cancels(head, da + x, db + y);
    if da.len() < db.len() {
        assert((da + x)[da.len() as int] == '{');
        assert((db + y)[da.len() as int] == db[da.len() as int]);
        assert('0' <= db[da.len() as int] <= '9');
    } else if db.len() < da.len() {
        assert((db + y)[db.len() as int] == '{');
        assert((da + x)[db.len() as int] == da[db.len() as int]);
        assert('0' <= da[db.len() as int] <= '9');
    }
    assert(da =~= (da + x).take(da.len() as int));
    assert(db =~= (db + y).take(da.len() as int));
    assert(x =~= (da + x).skip(da.len() as int));
    assert(y =~= (db + y).skip(da.len() as int));
    text::lemma_decimal_injective(a as nat, b as nat);
}

/// The canonical text of what stands before the prompt.
spec fn prelude_text(model: Seq<char>, tool_choice: Option<JsonView>) -> Seq<char> {
    json_text::canonical(JsonView::Object(segments::prelude(model, tool_choice)))
}

proof fn lemma_prelude_begins(model: Seq<char>, tool_choice: Option<JsonView>, x: Seq<char>)
    ensures
        (prelude_text(model, tool_choice) + x).len() > 0,
        (prelude_text(model, tool_choice) + x)[0] == '{',
{
}

/// Prompts for different accounts are never the same text, whatever they hold.
pub proof fn law_accounts_are_kept_apart(
    a: u64,
    b: u64,
    model_a: Seq<char>,
    model_b: Seq<char>,
    choice_a: Option<JsonView>,
    choice_b: Option<JsonView>,
    x: Seq<char>,
    y: Seq<char>,
)
    requires
        a != b,
    ensures
        segments::seed_text(a, model_a, choice_a) + x != segments::seed_text(
            b,
            model_b,
            choice_b,
        ) + y,
{
    let pa = prelude_text(model_a, choice_a);
    let pb = prelude_text(model_b, choice_b);
    lemma_prelude_begins(model_a, choice_a, x);
    lemma_prelude_begins(model_b, choice_b, y);
    let head_a = "credential:"@ + text::decimal(a as nat);
    let head_b = "credential:"@ + text::decimal(b as nat);
    assert(segments::seed_text(a, model_a, choice_a) + x =~= head_a + (pa + x));
    assert(segments::seed_text(b, model_b, choice_b) + y =~= head_b + (pb + y));
    if segments::seed_text(a, model_a, choice_a) + x == segments::seed_text(b, model_b, choice_b)
        + y {
        lemma_account_is_read_off(a, b, pa + x, pb + y);
    }
}

/// The choice of tools that a request stands for.
pub open spec fn choice(tool_choice: Option<JsonView>) -> JsonView {
    match tool_choice {
        Some(v) => v,
        None => JsonView::Null,
    }
}

/// The normal form of what stands before the prompt.
proof fn lemma_prelude_normal(model: Seq<char>, tool_choice: Option<JsonView>)
    requires
        json_laws::well_formed(choice(tool_choice)),
    ensures
        json_laws::normal(JsonView::Object(segments::prelude(model, tool_choice)))
            == JsonView::Object(
            seq![
                FieldView { key: "model"@, value: JsonView::Text(model) },
                FieldView { key: "tool_choice"@, value: json_laws::normal(choice(tool_choice)) },
            ],
        ),
        json_laws::well_formed(
            json_laws::normal(JsonView::Object(segments::prelude(model, tool_choice))),
        ),
{
    let fields = segments::prelude(model, tool_choice);
    let f = FieldView { key: "model"@, value: JsonView::Text(model) };
    let g = FieldView {
        key: "tool_choice"@,
        value: json_laws::normal(choice(tool_choice)),
    };
    reveal_strlit("model");
    reveal_strlit("tool_choice");
    assert("model"@[0] == 'm' && "tool_choice"@[0] == 't');
    assert(text::text_le("model"@, "tool_choice"@));
    reveal_with_fuel(json_laws::normal_fields, 3);
    reveal_with_fuel(json_laws::sorted_fields, 3);
    assert(fields.drop_last().drop_last() =~= Seq::empty());
    let n = json_laws::normal_fields(fields);
    assert(n =~= seq![f, g]);
    assert(n.drop_last() =~= seq![f]);
    assert(n.drop_last().drop_last() =~= Seq::empty());
    assert(json_laws::sorted_fields(n) =~= seq![f, g]);
    assert(json_laws::well_formed(JsonView::Text(model)));
    assert(fields[0].value == JsonView::Text(model));
    assert(fields[1].value == choice(tool_choice));
    assert forall|i: int| 0 <= i < fields.len() implies json_laws::well_formed(
        (#[trigger] fields[i]).value,
    ) by {
        assert(i == 0 || i == 1);
    }
    json_laws::lemma_normal_is_well_formed(JsonView::Object(fields));
}

/// Prompts for different models, or with different choices of tools, are never the same text,
/// whatever else they hold. Choices are different where they differ in more than the order of
/// fields.
pub proof fn law_models_and_tool_choices_are_kept_apart(
    credential_id: u64,
    model_a: Seq<char>,
    model_b: Seq<char>,
    choice_a: Option<JsonView>,
    choice_b: Option<JsonView>,
    x: Seq<char>,
    y: Seq<char>,
)
    requires
        json_laws::well_formed(choice(choice_a)),
        json_laws::well_formed(choice(choice_b)),
        model_a != model_b || json_laws::normal(choice(choice_a)) != json_laws::normal(
            choice(choice_b),
        ),
    ensures
        segments::seed_text(credential_id, model_a, choice_a) + x != segments::seed_text(
            credential_id,
            model_b,
            choice_b,
        ) + y,
{
    let pa = prelude_text(model_a, choice_a);
    let pb = prelude_text(model_b, choice_b);
    let head = "credential:"@ + text::decimal(credential_id as nat);
    assert(segments::seed_text(credential_id, model_a, choice_a) + x =~= head + (pa + x));
    assert(segments::seed_text(credential_id, model_b, choice_b) + y =~= head + (pb + y));
    chain_laws::lemma_concat_cancels(head, pa + x, pb + y);
    if pa + x == pb + y {
        let va = JsonView::Object(segments::prelude(model_a, choice_a));
        let vb = JsonView::Object(segments::prelude(model_b, choice_b));
        json_laws::law_canonical_is_compact_of_normal(va);
        json_laws::law_canonical_is_compact_of_normal(vb);
        lemma_prelude_normal(model_a, choice_a);
        lemma_prelude_normal(model_b, choice_b);
        let fa = json_laws::normal(va)->Object_0;
        let fb = json_laws::normal(vb)->Object_0;
        json_laws::law_compact_text_is_delimited(
            JsonView::Object(fa),
            JsonView::Object(fb),
            x,
            y,
        );
        assert(fa[0].value == fb[0].value);
        assert(fa[1].value == fb[1].value);
    }
}

// ---------------------------------------------------------------------------
// Tool calls and their results are kept apart
// ---------------------------------------------------------------------------

/// Whether two values differ in more than the order of fields.
pub open spec fn different(a: JsonView, b: JsonView) -> bool {
    json_laws::well_formed(a) && json_laws::well_formed(b) && json_laws::normal(a)
        != json_laws::normal(b)
}

/// Texts that go on with different values after the same beginning are different, whatever comes
/// behind the values.
proof fn lemma_values_are_kept_apart(
    p: Seq<char>,
    a: JsonView,
    b: JsonView,
    x: Seq<char>,
    y: Seq<char>,
)
    requires
        different(a, b),
        a is Number ==> json_laws::ends_number(x) && json_laws::ends_number(y),
    ensures
        p + json_text::canonical(a) + x != p + json_text::canonical(b) + y,
{
    let u = json_text::canonical(a) + x;
    let v = json_text::canonical(b) + y;
    assert(p + json_text::canonical(a) + x =~= p + u);
    assert(p + json_text::canonical(b) + y =~= p + v);
    if p + u == p + v {
        assert(u =~= (p + u).skip(p.len() as int));
        assert(v =~= (p + v).skip(p.len() as int));
        json_laws::law_canonical_text_is_delimited(a, b, x, y);
    }
}

/// Prompts that are the same up to a tool result, and there have different contents, are different
/// texts from there on, whatever comes behind. A content that is a bare number is not to be carried
/// on by what follows.
pub proof fn law_changed_tool_results_are_kept_apart(
    p: Seq<char>,
    a: JsonView,
    b: JsonView,
    x: Seq<char>,
    y: Seq<char>,
)
    requires
        json_text::text_field(a, "type"@) == Some("tool_result"@),
        json_text::text_field(b, "type"@) == Some("tool_result"@),
        json_text::field(a, "is_error"@) == json_text::field(b, "is_error"@),
        json_text::field(a, "content"@) is Some,
        json_text::field(b, "content"@) is Some,
        different(json_text::field(a, "content"@)->0, json_text::field(b, "content"@)->0),
        json_text::field(a, "content"@)->0 is Number ==> json_laws::ends_number(x)
            && json_laws::ends_number(y),
    ensures
        p + prompt::block_signature_text(a) + x != p + prompt::block_signature_text(b) + y,
{
    chain_laws::lemma_kinds_are_different();
    let c = json_text::field(a, "content"@)->0;
    let d = json_text::field(b, "content"@)->0;
    let flag = if json_text::field(a, "is_error"@) == Some(JsonView::Bool(true)) {
        "true"@
    } else {
        "false"@
    };
    let start = "block:tool_result|"@ + flag + "|"@;
    lemma_values_are_kept_apart(p + start, c, d, x, y);
    assert(p + prompt::block_signature_text(a) + x =~= p + start + json_text::canonical(c) + x);
    assert(p + prompt::block_signature_text(b) + y =~= p + start + json_text::canonical(d) + y);
}

/// Prompts that are the same up to a call of a tool, and there have different inputs, are different
/// texts from there on, whatever comes behind. An input that is a bare number is not to be carried
/// on by what follows.
pub proof fn law_changed_tool_inputs_are_kept_apart(
    p: Seq<char>,
    a: JsonView,
    b: JsonView,
    x: Seq<char>,
    y: Seq<char>,
)
    requires
        json_text::text_field(a, "type"@) == Some("tool_use"@),
        json_text::text_field(b, "type"@) == Some("tool_use"@),
        json_text::text_or_empty(a, "name"@) == json_text::text_or_empty(b, "name"@),
        json_text::field(a, "input"@) is Some,
        json_text::field(b, "input"@) is Some,
        different(json_text::field(a, "input"@)->0, json_text::field(b, "input"@)->0),
        json_text::field(a, "input"@)->0 is Number ==> json_laws::ends_number(x)
            && json_laws::ends_number(y),
    ensures
        p + prompt::block_signature_text(a) + x != p + prompt::block_signature_text(b) + y,
{
    chain_laws::lemma_kinds_are_different();
    let c = json_text::field(a, "input"@)->0;
    let d = json_text::field(b, "input"@)->0;
    let start = "block:tool_use|"@ + json_text::text_or_empty(a, "name"@) + "|"@;
    lemma_values_are_kept_apart(p + start, c, d, x, y);
    assert(p + prompt::block_signature_text(a) + x =~= p + start + json_text::canonical(c) + x);
    assert(p + prompt::block_signature_text(b) + y =~= p + start + json_text::canonical(d) + y);
}

// ---------------------------------------------------------------------------
// Images and texts count
// ---------------------------------------------------------------------------

/// The data of an image counts: images of the same media type with different data have different
/// parts in the fingerprints.
pub proof fn law_image_data_counts(a: JsonView, b: JsonView)
    requires
        json_text::text_field(a, "type"@) == Some("image"@),
        json_text::text_field(b, "type"@) == Some("image"@),
        prompt::image_source(a).0 == prompt::image_source(b).0,
        prompt::image_source(a).1.len() > 0,
        prompt::image_source(b).1.len() > 0,
        prompt::image_source(a).1 != prompt::image_source(b).1,
    ensures
        prompt::block_signature_text(a) != prompt::block_signature_text(b),
        prompt::image_signature_text(a) != prompt::image_signature_text(b),
{
    chain_laws::lemma_kinds_are_different();
    chain_laws::lemma_concat_cancels(
        "block:image|"@ + prompt::image_source(a).0 + "|"@,
        prompt::image_source(a).1,
        prompt::image_source(b).1,
    );
}

/// The media type of an image counts: images of different media types have different parts in the
/// fingerprints, as long as there is no vertical bar in them.
pub proof fn law_image_types_count(a: JsonView, b: JsonView)
    requires
        json_text::text_field(a, "type"@) == Some("image"@),
        json_text::text_field(b, "type"@) == Some("image"@),
        prompt::image_source(a).0 != prompt::image_source(b).0,
        !prompt::image_source(a).0.contains('|'),
        !prompt::image_source(b).0.contains('|'),
    ensures
        prompt::block_signature_text(a) != prompt::block_signature_text(b),
        prompt::image_signature_text(a) != prompt::image_signature_text(b),
{
    chain_laws::lemma_kinds_are_different();
    reveal_strlit("|");
    let m = prompt::image_source(a).0;
    let n = prompt::image_source(b).0;
    let x = if prompt::image_source(a).1.len() == 0 {
        json_text::canonical(a)
    } else {
        prompt::image_source(a).1
    };
    let y = if prompt::image_source(b).1.len() == 0 {
        json_text::canonical(b)
    } else {
        prompt::image_source(b).1
    };
    let u = m + "|"@ + x;
    let v = n + "|"@ + y;
    assert(prompt::image_signature_text(a) =~= "block:image|"@ + u);
    assert(prompt::image_signature_text(b) =~= "block:image|"@ + v);
    chain_laws::lemma_concat_cancels("block:image|"@, u, v);
    if u == v {
        let k = m.len() as int;
        let l = n.len() as int;
        assert(u[k] == '|');
        assert(v[l] == '|');
        if k < l {
            assert(v[k] == n[k]);
        } else if l < k {
            assert(u[l] == m[l]);
        } else {
            assert(m =~= u.take(k));
            assert(n =~= v.take(l));
        }
    }
}

/// An image without data is told apart by its whole block.
pub proof fn law_images_without_data_count(a: JsonView, b: JsonView)
    requires
        json_text::text_field(a, "type"@) == Some("image"@),
        json_text::text_field(b, "type"@) == Some("image"@),
        prompt::image_source(a).0 == prompt::image_source(b).0,
        prompt::image_source(a).1.len() == 0,
        prompt::image_source(b).1.len() == 0,
        different(a, b),
    ensures
        prompt::block_signature_text(a) != prompt::block_signature_text(b),
        prompt::image_signature_text(a) != prompt::image_signature_text(b),
{
    chain_laws::lemma_kinds_are_different();
    json_laws::law_canonical_text_means_the_same(a, b);
    chain_laws::lemma_concat_cancels(
        "block:image|"@ + prompt::image_source(a).0 + "|"@,
        json_text::canonical(a),
        json_text::canonical(b),
    );
}

/// Whether a kind of content block holds a text, and under which key.
pub open spec fn holds_text(kind: Seq<char>, key: Seq<char>) -> bool {
    ||| kind == "text"@ && key == "text"@
    ||| kind == "thinking"@ && key == "thinking"@
    ||| kind == "redacted_thinking"@ && key == "data"@
}

/// What is said or thought counts: blocks of the same kind with different texts have different parts
/// in the fingerprints, and each is counted by its text.
pub proof fn law_block_texts_count(a: JsonView, b: JsonView, kind: Seq<char>, key: Seq<char>)
    requires
        holds_text(kind, key),
        json_text::text_field(a, "type"@) == Some(kind),
        json_text::text_field(b, "type"@) == Some(kind),
        json_text::text_or_empty(a, key) != json_text::text_or_empty(b, key),
    ensures
        prompt::block_signature_text(a) != prompt::block_signature_text(b),
        prompt::block_counted_text(a) == json_text::text_or_empty(a, key),
        prompt::block_counted_text(b) == json_text::text_or_empty(b, key),
{
    chain_laws::lemma_kinds_are_different();
    let x = json_text::text_or_empty(a, key);
    let y = json_text::text_or_empty(b, key);
    chain_laws::lemma_concat_cancels("block:text|"@, x, y);
    chain_laws::lemma_concat_cancels("block:thinking|"@, x, y);
    chain_laws::lemma_concat_cancels("block:redacted_thinking|"@, x, y);
}

// ---------------------------------------------------------------------------
// Cache marks have no part in the fingerprints
// ---------------------------------------------------------------------------

/// Fields without cache marks.
pub open spec fn without_marks(fields: Seq<FieldView>) -> Seq<FieldView>
    decreases fields.len(),
{
    if fields.len() == 0 {
        Seq::empty()
    } else {
        let rest = without_marks(fields.drop_first());
        if fields[0].key == "cache_control"@ {
            rest
        } else {
            seq![fields[0]] + rest
        }
    }
}

proof fn lemma_unmarked_field(fields: Seq<FieldView>, key: Seq<char>)
    requires
        key != "cache_control"@,
    ensures
        json_text::find_field(without_marks(fields), key) == json_text::find_field(fields, key),
    decreases fields.len(),
{
    if fields.len() > 0 {
        let rest = without_marks(fields.drop_first());
        lemma_unmarked_field(fields.drop_first(), key);
        assert((seq![fields[0]] + rest).drop_first() =~= rest);
    }
}

proof fn lemma_stripped_concat(a: Seq<FieldView>, b: Seq<FieldView>)
    ensures
        prompt::stripped_fields(a + b) == prompt::stripped_fields(a) + prompt::stripped_fields(b),
    decreases b.len(),
{
    if b.len() == 0 {
        assert(a + b =~= a);
        assert(prompt::stripped_fields(a) + prompt::stripped_fields(b) =~= prompt::stripped_fields(
            a,
        ));
    } else {
        lemma_stripped_concat(a, b.drop_last());
        assert((a + b).drop_last() =~= a + b.drop_last());
        assert((a + b).last() == b.last());
        assert(prompt::stripped_fields(a + b) =~= prompt::stripped_fields(a)
            + prompt::stripped_fields(b));
    }
}

proof fn lemma_stripped_unmarked(fields: Seq<FieldView>)
    ensures
        prompt::stripped_fields(without_marks(fields)) == prompt::stripped_fields(fields),
    decreases fields.len(),
{
    if fields.len() > 0 {
        let first = seq![fields[0]];
        let tail = fields.drop_first();
        let rest = without_marks(tail);
        lemma_stripped_unmarked(tail);
        assert(fields =~= first + tail);
        lemma_stripped_concat(first, tail);
        lemma_stripped_concat(first, rest);
        assert(first.drop_last() =~= Seq::empty());
        if fields[0].key == "cache_control"@ {
            reveal_with_fuel(prompt::stripped_fields, 2);
            assert(first.last() == fields[0]);
            assert(prompt::stripped_fields(first) =~= Seq::empty());
            assert(Seq::<FieldView>::empty() + prompt::stripped_fields(tail)
                =~= prompt::stripped_fields(tail));
        }
    }
}

/// A cache mark on a content block has no part in the fingerprints. An image without data is left
/// out, since the whole block stands for it.
pub proof fn law_marks_do_not_count(fields: Seq<FieldView>)
    requires
        json_text::text_field(JsonView::Object(fields), "type"@) == Some("image"@)
            ==> prompt::image_source(JsonView::Object(fields)).1.len() > 0,
    ensures
        prompt::block_signature_text(JsonView::Object(without_marks(fields)))
            == prompt::block_signature_text(JsonView::Object(fields)),
{
    reveal_strlit("cache_control");
    reveal_strlit("type");
    reveal_strlit("text");
    reveal_strlit("thinking");
    reveal_strlit("data");
    reveal_strlit("name");
    reveal_strlit("input");
    reveal_strlit("is_error");
    reveal_strlit("content");
    reveal_strlit("source");
    reveal_strlit("image");
    assert("cache_control"@.len() == 13);
    assert("image"@.len() == 5);
    lemma_unmarked_field(fields, "type"@);
    lemma_unmarked_field(fields, "text"@);
    lemma_unmarked_field(fields, "thinking"@);
    lemma_unmarked_field(fields, "data"@);
    lemma_unmarked_field(fields, "name"@);
    lemma_unmarked_field(fields, "input"@);
    lemma_unmarked_field(fields, "is_error"@);
    lemma_unmarked_field(fields, "content"@);
    lemma_unmarked_field(fields, "source"@);
    lemma_stripped_unmarked(fields);
}

// ---------------------------------------------------------------------------
// The order in which a schema is built
// ---------------------------------------------------------------------------

/// A schema built by inserting fields one after another.
pub open spec fn built(fields: Seq<FieldView>) -> Seq<FieldView>
    decreases fields.len(),
{
    if fields.len() == 0 {
        Seq::empty()
    } else {
        request::with_field(built(fields.drop_last()), fields.last())
    }
}

proof fn lemma_with_field_commutes(m: Seq<FieldView>, f: FieldView, g: FieldView)
    requires
        f.key != g.key,
    ensures
        request::with_field(request::with_field(m, f), g) == request::with_field(
            request::with_field(m, g),
            f,
        ),
    decreases m.len(),
{
    text::lemma_text_le_total(f.key, g.key);
    let fg = request::with_field(request::with_field(m, f), g);
    let gf = request::with_field(request::with_field(m, g), f);
    reveal_with_fuel(request::with_field, 3);
    if m.len() == 0 {
        assert(seq![f].drop_first() =~= Seq::empty());
        assert(seq![g].drop_first() =~= Seq::empty());
        assert(seq![f] + seq![g] =~= seq![f] + (seq![g] + Seq::<FieldView>::empty()));
        assert(fg =~= gf);
    } else {
        let first = m[0];
        let rest = m.drop_first();
        text::lemma_text_le_total(f.key, first.key);
        text::lemma_text_le_total(g.key, first.key);
        assert((seq![f] + rest).drop_first() =~= rest);
        assert((seq![g] + rest).drop_first() =~= rest);
        assert((seq![f] + m).drop_first() =~= m);
        assert((seq![g] + m).drop_first() =~= m);
        let wf = request::with_field(rest, f);
        let wg = request::with_field(rest, g);
        assert((seq![first] + wf).drop_first() =~= wf);
        assert((seq![first] + wg).drop_first() =~= wg);
        if f.key == first.key {
            if text::text_le(g.key, first.key) {
                assert(fg =~= seq![g] + (seq![f] + rest));
                assert(gf =~= seq![g] + (seq![f] + rest));
            } else {
                assert(fg =~= seq![f] + wg);
                assert(gf =~= seq![f] + wg);
            }
        } else if g.key == first.key {
            if text::text_le(f.key, first.key) {
                assert(fg =~= seq![f] + (seq![g] + rest));
                assert(gf =~= seq![f] + (seq![g] + rest));
            } else {
                assert(fg =~= seq![g] + wf);
                assert(gf =~= seq![g] + wf);
            }
        } else if text::text_le(f.key, first.key) && text::text_le(g.key, first.key) {
            if text::text_le(f.key, g.key) {
                assert(fg =~= seq![f] + (seq![g] + m));
                assert(gf =~= seq![f] + (seq![g] + m));
            } else {
                assert(fg =~= seq![g] + (seq![f] + m));
                assert(gf =~= seq![g] + (seq![f] + m));
            }
        } else if text::text_le(f.key, first.key) {
            // `g` stands behind `first`, and so behind `f`.
            if text::text_le(g.key, f.key) {
                text::lemma_text_le_transitive(g.key, f.key, first.key);
            }
            assert(fg =~= seq![f] + (seq![first] + wg));
            assert(gf =~= seq![f] + (seq![first] + wg));
        } else if text::text_le(g.key, first.key) {
            if text::text_le(f.key, g.key) {
                text::lemma_text_le_transitive(f.key, g.key, first.key);
            }
            assert(fg =~= seq![g] + (seq![first] + wf));
            assert(gf =~= seq![g] + (seq![first] + wf));
        } else {
            lemma_with_field_commutes(rest, f, g);
            assert(fg =~= seq![first] + request::with_field(wf, g));
            assert(gf =~= seq![first] + request::with_field(wg, f));
        }
    }
}

proof fn lemma_built_last(fields: Seq<FieldView>, i: int)
    requires
        json_laws::distinct_keys(fields),
        0 <= i < fields.len(),
    ensures
        built(fields) == request::with_field(built(fields.remove(i)), fields[i]),
    decreases fields.len(),
{
    let last = fields.len() - 1;
    if i == last {
        assert(fields.remove(i) =~= fields.drop_last());
    } else {
        let front = fields.drop_last();
        lemma_built_last(front, i);
        assert(fields.remove(i).drop_last() =~= front.remove(i));
        assert(fields.remove(i).last() == fields.last());
        assert(fields[i].key != fields[last].key);
        lemma_with_field_commutes(built(front.remove(i)), fields[i], fields.last());
    }
}

/// A schema does not depend on the order in which its fields were inserted.
pub proof fn law_schema_forgets_the_order(a: Seq<FieldView>, b: Seq<FieldView>)
    requires
        json_laws::distinct_keys(a),
        json_laws::distinct_keys(b),
        a.to_multiset() == b.to_multiset(),
    ensures
        built(a) == built(b),
    decreases a.len(),
{
    broadcast use vstd::seq_lib::group_to_multiset_ensures;

    assert(a.len() == a.to_multiset().len());
    assert(b.len() == b.to_multiset().len());
    if a.len() > 0 {
        let f = a.last();
        assert(a.contains(f));
        assert(b.to_multiset().count(f) > 0);
        let i = choose|i: int| 0 <= i < b.len() && b[i] == f;
        lemma_built_last(b, i);
        assert(a.drop_last() =~= a.remove(a.len() - 1));
        law_schema_forgets_the_order(a.drop_last(), b.remove(i));
    }
}

/// A tool has the same part in the fingerprints, and the same counted text, in whatever order its
/// schema was built.
pub proof fn law_tools_forget_the_schema_order(
    t: ToolView,
    a: Seq<FieldView>,
    b: Seq<FieldView>,
)
    requires
        json_laws::distinct_keys(a),
        json_laws::distinct_keys(b),
        a.to_multiset() == b.to_multiset(),
    ensures
        prompt::tool_signature_text(ToolView { input_schema: built(a), ..t })
            == prompt::tool_signature_text(ToolView { input_schema: built(b), ..t }),
        prompt::tool_counted_text(ToolView { input_schema: built(a), ..t })
            == prompt::tool_counted_text(ToolView { input_schema: built(b), ..t }),
{
    law_schema_forgets_the_order(a, b);
}

} // verus!
