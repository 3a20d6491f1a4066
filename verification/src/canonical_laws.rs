//! What the canonical text says of a value: in which order keys stand, and which values have it.

use vstd::prelude::*;

use crate::json::{FieldView, JsonView};
use crate::json_laws;
use crate::json_text;
use crate::text;

verus! {

// ---------------------------------------------------------------------------
// Keys ascend
// ---------------------------------------------------------------------------

/// Whether the keys of an object stand in ascending order.
pub open spec fn keys_ascend(fields: Seq<FieldView>) -> bool {
    forall|i: int, j: int|
        0 <= i < j < fields.len() ==> text::text_le(
            (#[trigger] fields[i]).key,
            (#[trigger] fields[j]).key,
        )
}

/// Whether keys stand in ascending order at every depth.
pub open spec fn keys_ascend_everywhere(v: JsonView) -> bool
    decreases v,
{
    match v {
        JsonView::Array(items) => forall|i: int|
            0 <= i < items.len() ==> keys_ascend_everywhere(#[trigger] items[i]),
        JsonView::Object(fields) => keys_ascend(fields) && forall|i: int|
            0 <= i < fields.len() ==> keys_ascend_everywhere((#[trigger] fields[i]).value),
        _ => true,
    }
}

proof fn lemma_insert_ascends(sorted: Seq<FieldView>, f: FieldView)
    requires
        keys_ascend(sorted),
    ensures
        keys_ascend(json_laws::insert_field(sorted, f)),
        json_laws::insert_field(sorted, f).len() == sorted.len() + 1,
    decreases sorted.len(),
{
    let out = json_laws::insert_field(sorted, f);
    if sorted.len() == 0 {
    } else if text::text_le(sorted.last().key, f.key) {
        assert forall|i: int, j: int| 0 <= i < j < out.len() implies text::text_le(
            (#[trigger] out[i]).key,
            (#[trigger] out[j]).key,
        ) by {
            if j < sorted.len() {
                assert(text::text_le(sorted[i].key, sorted[j].key));
            } else if i < sorted.len() - 1 {
                assert(text::text_le(sorted[i].key, sorted[sorted.len() - 1].key));
                text::lemma_text_le_transitive(sorted[i].key, sorted.last().key, f.key);
            }
        }
    } else {
        let front = sorted.drop_last();
        assert(keys_ascend(front)) by {
            assert forall|i: int, j: int| 0 <= i < j < front.len() implies text::text_le(
                (#[trigger] front[i]).key,
                (#[trigger] front[j]).key,
            ) by {
                assert(text::text_le(sorted[i].key, sorted[j].key));
            }
        }
        lemma_insert_ascends(front, f);
        text::lemma_text_le_total(f.key, sorted.last().key);
        let inner = json_laws::insert_field(front, f);
        assert forall|i: int, j: int| 0 <= i < j < out.len() implies text::text_le(
            (#[trigger] out[i]).key,
            (#[trigger] out[j]).key,
        ) by {
            if j < inner.len() {
                assert(text::text_le(inner[i].key, inner[j].key));
            } else {
                json_laws::lemma_insert_field_members(front, f, i);
                if inner[i] != f {
                    let k = choose|k: int| 0 <= k < front.len() && front[k] == inner[i];
                    assert(text::text_le(sorted[k].key, sorted[sorted.len() - 1].key));
                }
            }
        }
    }
}

proof fn lemma_sorted_ascends(fields: Seq<FieldView>)
    ensures
        keys_ascend(json_laws::sorted_fields(fields)),
        json_laws::sorted_fields(fields).len() == fields.len(),
    decreases fields.len(),
{
    if fields.len() > 0 {
        lemma_sorted_ascends(fields.drop_last());
        lemma_insert_ascends(json_laws::sorted_fields(fields.drop_last()), fields.last());
    }
}

proof fn lemma_normal_items_map(items: Seq<JsonView>)
    ensures
        json_laws::normal_items(items).len() == items.len(),
        forall|i: int|
            0 <= i < items.len() ==> #[trigger] json_laws::normal_items(items)[i]
                == json_laws::normal(items[i]),
    decreases items.len(),
{
    if items.len() > 0 {
        let front = items.drop_last();
        lemma_normal_items_map(front);
        assert forall|i: int| 0 <= i < items.len() implies #[trigger] json_laws::normal_items(
            items,
        )[i] == json_laws::normal(items[i]) by {
            if i < front.len() {
                assert(json_laws::normal_items(items)[i] == json_laws::normal_items(front)[i]);
            }
        }
    }
}

proof fn lemma_normal_ascends(v: JsonView)
    ensures
        keys_ascend_everywhere(json_laws::normal(v)),
    decreases v,
{
    match v {
        JsonView::Array(items) => {
            lemma_normal_items_map(items);
            let n = json_laws::normal_items(items);
            assert forall|i: int| 0 <= i < n.len() implies keys_ascend_everywhere(
                #[trigger] n[i],
            ) by {
                lemma_normal_ascends(items[i]);
            }
        },
        JsonView::Object(fields) => {
            let n = json_laws::normal_fields(fields);
            let sorted = json_laws::sorted_fields(n);
            json_laws::lemma_normal_fields_map(fields);
            lemma_sorted_ascends(n);
            assert forall|i: int| 0 <= i < sorted.len() implies keys_ascend_everywhere(
                (#[trigger] sorted[i]).value,
            ) by {
                json_laws::lemma_sorted_fields_members(n, i);
                let j = choose|j: int| 0 <= j < n.len() && n[j] == sorted[i];
                assert(n[j].value == json_laws::normal(fields[j].value));
                lemma_normal_ascends(fields[j].value);
            }
        },
        _ => {},
    }
}

/// The canonical text of a value is the compact text of a value whose keys ascend at every depth.
pub proof fn law_canonical_keys_ascend(v: JsonView)
    ensures
        json_text::canonical(v) == json_text::compact(json_laws::normal(v)),
        keys_ascend_everywhere(json_laws::normal(v)),
{
    json_laws::law_canonical_is_compact_of_normal(v);
    lemma_normal_ascends(v);
}

// ---------------------------------------------------------------------------
// Equal values
// ---------------------------------------------------------------------------

/// Whether no object in a value has a key twice.
pub open spec fn unique_keys(v: JsonView) -> bool
    decreases v,
{
    match v {
        JsonView::Array(items) => forall|i: int|
            0 <= i < items.len() ==> unique_keys(#[trigger] items[i]),
        JsonView::Object(fields) => json_laws::distinct_keys(fields) && forall|i: int|
            0 <= i < fields.len() ==> unique_keys((#[trigger] fields[i]).value),
        _ => true,
    }
}

/// Whether `fields` has a field with the key of `f` whose value is the same.
pub open spec fn has_same_field(f: FieldView, fields: Seq<FieldView>) -> bool
    decreases f.value, 1nat,
{
    exists|j: int|
        0 <= j < fields.len() && (#[trigger] fields[j]).key == f.key && same_value(
            f.value,
            fields[j].value,
        )
}

/// Whether two values are the same: arrays item by item, objects with the same keys and the same
/// values under them, in whatever order.
pub open spec fn same_value(v: JsonView, w: JsonView) -> bool
    decreases v, 0nat,
{
    match v {
        JsonView::Array(a) => w matches JsonView::Array(b) && a.len() == b.len() && forall|i: int|
            0 <= i < a.len() ==> same_value(#[trigger] a[i], b[i]),
        JsonView::Object(a) => w matches JsonView::Object(b) && a.len() == b.len() && forall|i: int|
            0 <= i < a.len() ==> has_same_field(#[trigger] a[i], b),
        _ => v == w,
    }
}

/// Fields with different keys that occur among others in the same number are sorted as those are.
proof fn lemma_sorted_same(a: Seq<FieldView>, b: Seq<FieldView>)
    requires
        json_laws::distinct_keys(a),
        json_laws::distinct_keys(b),
        a.len() == b.len(),
        forall|i: int| 0 <= i < a.len() ==> b.contains(#[trigger] a[i]),
    ensures
        json_laws::sorted_fields(a) == json_laws::sorted_fields(b),
    decreases a.len(),
{
    if a.len() > 0 {
        let last = a.len() - 1;
        let f = a[last];
        assert(b.contains(f));
        let i = choose|i: int| 0 <= i < b.len() && b[i] == f;
        let fa = a.drop_last();
        let fb = b.remove(i);
        json_laws::lemma_insert_last(b, i);
        assert(json_laws::distinct_keys(fa)) by {
            assert forall|x: int, y: int| 0 <= x < y < fa.len() implies (#[trigger] fa[x]).key != (
            #[trigger] fa[y]).key by {
                assert(a[x].key != a[y].key);
            }
        }
        assert(json_laws::distinct_keys(fb)) by {
            assert forall|x: int, y: int| 0 <= x < y < fb.len() implies (#[trigger] fb[x]).key != (
            #[trigger] fb[y]).key by {
                let p = if x < i {
                    x
                } else {
                    x + 1
                };
                let q = if y < i {
                    y
                } else {
                    y + 1
                };
                assert(b[p].key != b[q].key);
            }
        }
        assert forall|k: int| 0 <= k < fa.len() implies fb.contains(#[trigger] fa[k]) by {
            assert(b.contains(a[k]));
            let j = choose|j: int| 0 <= j < b.len() && b[j] == a[k];
            assert(a[k].key != a[last].key);
            if j < i {
                assert(fb[j] == fa[k]);
            } else {
                assert(fb[j - 1] == fa[k]);
            }
        }
        lemma_sorted_same(fa, fb);
    } else {
        assert(a =~= b);
    }
}

proof fn lemma_same_values_are_normal_alike(v: JsonView, w: JsonView)
    requires
        unique_keys(v),
        unique_keys(w),
        same_value(v, w),
    ensures
        json_laws::normal(v) == json_laws::normal(w),
    decreases v,
{
    match v {
        JsonView::Array(a) => {
            let b = w->Array_0;
            lemma_normal_items_map(a);
            lemma_normal_items_map(b);
            let na = json_laws::normal_items(a);
            let nb = json_laws::normal_items(b);
            assert forall|i: int| 0 <= i < na.len() implies #[trigger] na[i] == nb[i] by {
                assert(same_value(a[i], b[i]));
                assert(unique_keys(a[i]) && unique_keys(b[i]));
                lemma_same_values_are_normal_alike(a[i], b[i]);
                assert(nb[i] == json_laws::normal(b[i]));
            }
            assert(na =~= nb);
        },
        JsonView::Object(a) => {
            let b = w->Object_0;
            json_laws::lemma_normal_fields_map(a);
            json_laws::lemma_normal_fields_map(b);
            let na = json_laws::normal_fields(a);
            let nb = json_laws::normal_fields(b);
            assert forall|i: int| 0 <= i < na.len() implies nb.contains(#[trigger] na[i]) by {
                assert(has_same_field(a[i], b));
                let j = choose|j: int|
                    0 <= j < b.len() && (#[trigger] b[j]).key == a[i].key && same_value(
                        a[i].value,
                        b[j].value,
                    );
                assert(unique_keys(a[i].value) && unique_keys(b[j].value));
                lemma_same_values_are_normal_alike(a[i].value, b[j].value);
                assert(nb[j] == na[i]);
            }
            lemma_sorted_same(na, nb);
        },
        _ => {},
    }
}

/// Sorting loses no field.
proof fn lemma_insert_keeps(sorted: Seq<FieldView>, f: FieldView, g: FieldView)
    requires
        g == f || sorted.contains(g),
    ensures
        json_laws::insert_field(sorted, f).contains(g),
    decreases sorted.len(),
{
    let out = json_laws::insert_field(sorted, f);
    if sorted.len() == 0 || text::text_le(sorted.last().key, f.key) {
        if g == f {
            assert(out[sorted.len() as int] == g);
        } else {
            let i = choose|i: int| 0 <= i < sorted.len() && sorted[i] == g;
            assert(out[i] == g);
        }
    } else {
        let front = sorted.drop_last();
        let inner = json_laws::insert_field(front, f);
        if g != f && g == sorted.last() {
            assert(out[out.len() - 1] == g);
        } else {
            if g != f {
                let i = choose|i: int| 0 <= i < sorted.len() && sorted[i] == g;
                assert(front[i] == g);
            }
            lemma_insert_keeps(front, f, g);
            let k = choose|k: int| 0 <= k < inner.len() && inner[k] == g;
            assert(out[k] == g);
        }
    }
}

proof fn lemma_sorted_keeps(fields: Seq<FieldView>, i: int)
    requires
        0 <= i < fields.len(),
    ensures
        json_laws::sorted_fields(fields).contains(fields[i]),
    decreases fields.len(),
{
    let front = fields.drop_last();
    if i < front.len() {
        lemma_sorted_keeps(front, i);
        assert(front[i] == fields[i]);
    }
    lemma_insert_keeps(json_laws::sorted_fields(front), fields.last(), fields[i]);
}

proof fn lemma_normal_alike_are_the_same(v: JsonView, w: JsonView)
    requires
        json_laws::normal(v) == json_laws::normal(w),
    ensures
        same_value(v, w),
    decreases v,
{
    match v {
        JsonView::Array(a) => {
            let b = w->Array_0;
            lemma_normal_items_map(a);
            lemma_normal_items_map(b);
            assert forall|i: int| 0 <= i < a.len() implies same_value(#[trigger] a[i], b[i]) by {
                assert(json_laws::normal_items(a)[i] == json_laws::normal_items(b)[i]);
                lemma_normal_alike_are_the_same(a[i], b[i]);
            }
        },
        JsonView::Object(a) => {
            let b = w->Object_0;
            let na = json_laws::normal_fields(a);
            let nb = json_laws::normal_fields(b);
            json_laws::lemma_normal_fields_map(a);
            json_laws::lemma_normal_fields_map(b);
            lemma_sorted_ascends(na);
            lemma_sorted_ascends(nb);
            let sorted = json_laws::sorted_fields(na);
            assert(sorted == json_laws::sorted_fields(nb));
            assert forall|i: int| 0 <= i < a.len() implies has_same_field(#[trigger] a[i], b) by {
                lemma_sorted_keeps(na, i);
                let k = choose|k: int| 0 <= k < sorted.len() && sorted[k] == na[i];
                json_laws::lemma_sorted_fields_members(nb, k);
                let j = choose|j: int| 0 <= j < nb.len() && nb[j] == sorted[k];
                assert(nb[j].key == b[j].key);
                lemma_normal_alike_are_the_same(a[i].value, b[j].value);
                assert(b[j].key == a[i].key);
            }
        },
        _ => {},
    }
}

/// Values have the same canonical text exactly when they are the same value: the order of keys never
/// matters, the order of items does.
pub proof fn law_canonical_text_is_that_of_the_value(v: JsonView, w: JsonView)
    requires
        json_laws::well_formed(v),
        json_laws::well_formed(w),
        unique_keys(v),
        unique_keys(w),
    ensures
        json_text::canonical(v) == json_text::canonical(w) <==> same_value(v, w),
{
    json_laws::law_canonical_text_means_the_same(v, w);
    if same_value(v, w) {
        lemma_same_values_are_normal_alike(v, w);
    }
    if json_laws::normal(v) == json_laws::normal(w) {
        lemma_normal_alike_are_the_same(v, w);
    }
}

/// Whether a text is how a value is written, its fields in the order in which they stand.
pub open spec fn reads_as(t: Seq<char>, v: JsonView) -> bool {
    json_laws::well_formed(v) && json_text::compact(v) == t
}

/// The canonical text of a value reads as one value only, and that is the value again, with its
/// keys in order.
pub proof fn law_canonical_text_reads_back(v: JsonView, w: JsonView)
    requires
        json_laws::well_formed(v),
    ensures
        reads_as(json_text::canonical(v), json_laws::normal(v)),
        reads_as(json_text::canonical(v), w) ==> w == json_laws::normal(v) && same_value(v, w),
{
    json_laws::law_canonical_is_compact_of_normal(v);
    json_laws::lemma_normal_is_well_formed(v);
    if reads_as(json_text::canonical(v), w) {
        let n = json_laws::normal(v);
        let empty = Seq::<char>::empty();
        json_laws::law_compact_text_is_delimited(w, n, empty, empty);
        lemma_normal_is_stable(v);
        lemma_normal_alike_are_the_same(v, n);
    }
}

/// A value whose keys ascend already is sorted as it stands.
proof fn lemma_ascending_is_sorted(fields: Seq<FieldView>)
    requires
        keys_ascend(fields),
    ensures
        json_laws::sorted_fields(fields) == fields,
    decreases fields.len(),
{
    if fields.len() > 0 {
        let front = fields.drop_last();
        assert(keys_ascend(front)) by {
            assert forall|i: int, j: int| 0 <= i < j < front.len() implies text::text_le(
                (#[trigger] front[i]).key,
                (#[trigger] front[j]).key,
            ) by {
                assert(text::text_le(fields[i].key, fields[j].key));
            }
        }
        lemma_ascending_is_sorted(front);
        if front.len() > 0 {
            assert(text::text_le(
                fields[fields.len() - 2].key,
                fields[fields.len() - 1].key,
            ));
        }
        assert(front.push(fields.last()) =~= fields);
    } else {
        assert(json_laws::sorted_fields(fields) =~= fields);
    }
}

proof fn lemma_ascending_is_normal(v: JsonView)
    requires
        keys_ascend_everywhere(v),
    ensures
        json_laws::normal(v) == v,
    decreases v,
{
    match v {
        JsonView::Array(items) => {
            lemma_normal_items_map(items);
            let n = json_laws::normal_items(items);
            assert forall|i: int| 0 <= i < n.len() implies #[trigger] n[i] == items[i] by {
                assert(keys_ascend_everywhere(items[i]));
                lemma_ascending_is_normal(items[i]);
            }
            assert(n =~= items);
        },
        JsonView::Object(fields) => {
            json_laws::lemma_normal_fields_map(fields);
            let n = json_laws::normal_fields(fields);
            assert forall|i: int| 0 <= i < n.len() implies #[trigger] n[i] == fields[i] by {
                assert(keys_ascend_everywhere(fields[i].value));
                lemma_ascending_is_normal(fields[i].value);
            }
            assert(n =~= fields);
            lemma_ascending_is_sorted(fields);
        },
        _ => {},
    }
}

/// The normal form of a normal form is that form.
proof fn lemma_normal_is_stable(v: JsonView)
    ensures
        json_laws::normal(json_laws::normal(v)) == json_laws::normal(v),
{
    lemma_normal_ascends(v);
    lemma_ascending_is_normal(json_laws::normal(v));
}

} // verus!
