//! The dynamically typed values of a log record and their plain-text rendering.

use vstd::prelude::*;

use crate::text::append_chars;
use crate::text::chars_of;

verus! {

/// A JSON value. Numbers are held as the canonical decimal text of the number; an object
/// keeps its fields in insertion order.
#[derive(Debug, PartialEq)]
pub enum JsonValue {
    Null,
    Bool(bool),
    Number(String),
    Str(String),
    Array(Vec<JsonValue>),
    Object(Vec<(String, JsonValue)>),
}

/// A JSON value as a mathematical value.
pub enum JsonView {
    Null,
    Bool(bool),
    Number(Seq<char>),
    Str(Seq<char>),
    Array(Seq<JsonView>),
    Object(Seq<(Seq<char>, JsonView)>),
}

/// The fields of a record, in order, as mathematical values.
pub type FieldsView = Seq<(Seq<char>, JsonView)>;

pub open spec fn value_view(v: JsonValue) -> JsonView
    decreases v,
{
    match v {
        JsonValue::Null => JsonView::Null,
        JsonValue::Bool(b) => JsonView::Bool(b),
        JsonValue::Number(n) => JsonView::Number(n@),
        JsonValue::Str(s) => JsonView::Str(s@),
        JsonValue::Array(items) => JsonView::Array(items_view(items@)),
        JsonValue::Object(fields) => JsonView::Object(fields_view(fields@)),
    }
}

pub open spec fn items_view(items: Seq<JsonValue>) -> Seq<JsonView>
    decreases items,
{
    if items.len() == 0 {
        Seq::empty()
    } else {
        items_view(items.drop_last()).push(value_view(items.last()))
    }
}

pub open spec fn fields_view(fields: Seq<(String, JsonValue)>) -> FieldsView
    decreases fields,
{
    if fields.len() == 0 {
        Seq::empty()
    } else {
        fields_view(fields.drop_last()).push((fields.last().0@, value_view(fields.last().1)))
    }
}

impl View for JsonValue {
    type V = JsonView;

    open spec fn view(&self) -> JsonView {
        value_view(*self)
    }
}

pub proof fn lemma_items_view(items: Seq<JsonValue>)
    ensures
        items_view(items).len() == items.len(),
        forall|i: int| 0 <= i < items.len() ==> #[trigger] items_view(items)[i] == value_view(items[i]),
    decreases items.len(),
{
    if items.len() > 0 {
        lemma_items_view(items.drop_last());
    }
}

pub proof fn lemma_fields_view(fields: Seq<(String, JsonValue)>)
    ensures
        fields_view(fields).len() == fields.len(),
        forall|i: int| 0 <= i < fields.len() ==> #[trigger] fields_view(fields)[i] == (
            fields[i].0@,
            value_view(fields[i].1),
        ),
    decreases fields.len(),
{
    if fields.len() > 0 {
        lemma_fields_view(fields.drop_last());
    }
}

pub proof fn lemma_fields_view_push(fields: Seq<(String, JsonValue)>, f: (String, JsonValue))
    ensures
        fields_view(fields.push(f)) == fields_view(fields).push((f.0@, value_view(f.1))),
{
    assert(fields.push(f).drop_last() =~= fields);
}

pub open spec fn true_text() -> Seq<char> {
    seq!['t', 'r', 'u', 'e']
}

pub open spec fn false_text() -> Seq<char> {
    seq!['f', 'a', 'l', 's', 'e']
}

pub open spec fn comma_space() -> Seq<char> {
    seq![',', ' ']
}

pub open spec fn colon_space() -> Seq<char> {
    seq![':', ' ']
}

/// The scalar form of a value: a string as itself, a number as its text, a boolean as
/// `true` or `false`, null as nothing, an array as its elements' forms joined by `, `,
/// an object as its `key: value` pairs joined by `, `.
pub open spec fn render_value(v: JsonView) -> Seq<char>
    decreases v,
{
    match v {
        JsonView::Null => Seq::empty(),
        JsonView::Bool(b) => if b { true_text() } else { false_text() },
        JsonView::Number(n) => n,
        JsonView::Str(s) => s,
        JsonView::Array(items) => render_items(items),
        JsonView::Object(fields) => render_fields(fields),
    }
}

/// The forms of `items` joined by `, `.
pub open spec fn render_items(items: Seq<JsonView>) -> Seq<char>
    decreases items,
{
    if items.len() == 0 {
        Seq::empty()
    } else if items.len() == 1 {
        render_value(items[0])
    } else {
        render_items(items.drop_last()) + comma_space() + render_value(items.last())
    }
}

/// The `key: value` forms of `fields` joined by `, `.
pub open spec fn render_fields(fields: FieldsView) -> Seq<char>
    decreases fields,
{
    if fields.len() == 0 {
        Seq::empty()
    } else if fields.len() == 1 {
        fields[0].0 + colon_space() + render_value(fields[0].1)
    } else {
        render_fields(fields.drop_last()) + comma_space() + fields.last().0 + colon_space()
            + render_value(fields.last().1)
    }
}

/// Index of the first field at or after `i` whose key is `key`.
pub open spec fn find_from(fields: FieldsView, key: Seq<char>, i: int) -> Option<int>
    decreases fields.len() - i,
{
    if i < 0 || i >= fields.len() {
        None
    } else if fields[i].0 == key {
        Some(i)
    } else {
        find_from(fields, key, i + 1)
    }
}

/// Index of the first field whose key is `key`.
pub open spec fn find_key(fields: FieldsView, key: Seq<char>) -> Option<int> {
    find_from(fields, key, 0)
}

/// The value of field `key`, if the record has one.
pub open spec fn field_of(fields: FieldsView, key: Seq<char>) -> Option<JsonView> {
    match find_key(fields, key) {
        Some(i) => Some(fields[i].1),
        None => None,
    }
}

/// The record with field `key` gone (the others keep their order).
pub open spec fn without_key(fields: FieldsView, key: Seq<char>) -> FieldsView {
    match find_key(fields, key) {
        Some(i) => fields.remove(i),
        None => fields,
    }
}

/// The record with field `key` set to `value`: in place when the key is there, else last.
pub open spec fn with_key(fields: FieldsView, key: Seq<char>, value: JsonView) -> FieldsView {
    match find_key(fields, key) {
        Some(i) => fields.update(i, (key, value)),
        None => fields.push((key, value)),
    }
}

pub proof fn lemma_find_from(fields: FieldsView, key: Seq<char>, i: int)
    requires
        0 <= i <= fields.len(),
    ensures
        match find_from(fields, key, i) {
            Some(j) => i <= j < fields.len() && fields[j].0 == key && forall|k: int|
                i <= k < j ==> #[trigger] fields[k].0 != key,
            None => forall|k: int| i <= k < fields.len() ==> #[trigger] fields[k].0 != key,
        },
    decreases fields.len() - i,
{
    if i < fields.len() && fields[i].0 != key {
        lemma_find_from(fields, key, i + 1);
    }
}

/// Position of the first field named `key`.
pub fn find_field(fields: &Vec<(String, JsonValue)>, key: &String) -> (r: Option<usize>)
    ensures
        r matches Some(i) ==> find_key(fields_view(fields@), key@) == Some(i as int) && i
            < fields@.len(),
        r is None ==> find_key(fields_view(fields@), key@) is None,
{
    let ghost fv = fields_view(fields@);
    proof {
        lemma_fields_view(fields@);
        lemma_find_from(fv, key@, 0);
    }
    let mut i: usize = 0;
    while i < fields.len()
        invariant
            0 <= i <= fields@.len(),
            fv == fields_view(fields@),
            fv.len() == fields@.len(),
            forall|j: int| 0 <= j < fields@.len() ==> #[trigger] fv[j] == (fields@[j].0@, value_view(fields@[j].1)),
            find_from(fv, key@, i as int) == find_key(fv, key@),
        decreases fields@.len() - i,
    {
        proof {
            assert(fv[i as int].0 == fields@[i as int].0@);
        }
        if fields[i].0 == *key {
            return Some(i);
        }
        i = i + 1;
    }
    None
}

/// The value of field `key`, if the record has one.
pub fn get_field<'a>(fields: &'a Vec<(String, JsonValue)>, key: &String) -> (r: Option<&'a JsonValue>)
    ensures
        r matches Some(v) ==> field_of(fields_view(fields@), key@) == Some(v@),
        r is None ==> field_of(fields_view(fields@), key@) is None,
{
    proof {
        lemma_fields_view(fields@);
    }
    match find_field(fields, key) {
        Some(i) => Some(&fields[i].1),
        None => None,
    }
}

/// Removes field `key`, keeping the order of the others.
pub fn remove_field(fields: &mut Vec<(String, JsonValue)>, key: &String)
    ensures
        fields_view(final(fields)@) == without_key(fields_view(old(fields)@), key@),
{
    proof {
        lemma_fields_view(fields@);
    }
    match find_field(fields, key) {
        Some(i) => {
            fields.remove(i);
            proof {
                lemma_fields_view(fields@);
                assert(fields_view(fields@) =~= fields_view(old(fields)@).remove(i as int));
            }
        },
        None => {},
    }
}

/// Sets field `key` to `value`: in place when the key is there, else as the last field.
pub fn set_field(fields: &mut Vec<(String, JsonValue)>, key: String, value: JsonValue)
    ensures
        fields_view(final(fields)@) == with_key(fields_view(old(fields)@), key@, value@),
{
    proof {
        lemma_fields_view(fields@);
    }
    match find_field(fields, &key) {
        Some(i) => {
            let ghost k = key@;
            let ghost v = value@;
            fields.set(i, (key, value));
            proof {
                lemma_fields_view(fields@);
                assert(fields_view(fields@) =~= fields_view(old(fields)@).update(i as int, (k, v)));
            }
        },
        None => {
            proof {
                lemma_fields_view_push(fields@, (key, value));
            }
            fields.push((key, value));
        },
    }
}

fn push_text(out: &mut Vec<char>, s: &String)
    ensures
        final(out)@ == old(out)@ + s@,
{
    let cs = chars_of(s.as_str());
    append_chars(out, &cs);
}

fn push_comma(out: &mut Vec<char>)
    ensures
        final(out)@ == old(out)@ + comma_space(),
{
    let ghost start = out@;
    out.push(',');
    out.push(' ');
    proof {
        assert(out@ =~= start + comma_space());
    }
}

/// Appends the scalar form of `v` to `out`.
pub fn render_into(v: &JsonValue, out: &mut Vec<char>)
    ensures
        final(out)@ == old(out)@ + render_value(v@),
    decreases v,
{
    let ghost start = out@;
    match v {
        JsonValue::Null => {
            proof {
                assert(out@ =~= start + render_value(v@));
            }
        },
        JsonValue::Bool(b) => {
            if *b {
                out.push('t');
                out.push('r');
                out.push('u');
                out.push('e');
            } else {
                out.push('f');
                out.push('a');
                out.push('l');
                out.push('s');
                out.push('e');
            }
            proof {
                assert(out@ =~= start + render_value(v@));
            }
        },
        JsonValue::Number(n) => {
            push_text(out, n);
        },
        JsonValue::Str(s) => {
            push_text(out, s);
        },
        JsonValue::Array(items) => {
            let mut i: usize = 0;
            proof {
                lemma_items_view(items@);
            }
            while i < items.len()
                invariant
                    0 <= i <= items@.len(),
                    *v == JsonValue::Array(*items),
                    items_view(items@).len() == items@.len(),
                    forall|j: int| 0 <= j < items@.len() ==> #[trigger] items_view(items@)[j] == value_view(items@[j]),
                    out@ == start + render_items(items_view(items@).subrange(0, i as int)),
                decreases items@.len() - i,
            {
                if i > 0 {
                    push_comma(out);
                }
                proof {
                    assert(decreases_to!(*v => v->Array_0));
                    assert(decreases_to!(v->Array_0 => items@));
                    assert(decreases_to!(items@ => items@[i as int]));
                }
                render_into(&items[i], out);
                proof {
                    let p = items_view(items@).subrange(0, i as int + 1);
                    assert(p.drop_last() =~= items_view(items@).subrange(0, i as int));
                    if i == 0 {
                        assert(p.len() == 1);
                    }
                    assert(out@ =~= start + render_items(p));
                }
                i = i + 1;
            }
            proof {
                assert(items_view(items@).subrange(0, items@.len() as int) =~= items_view(items@));
            }
        },
        JsonValue::Object(fields) => {
            let mut i: usize = 0;
            proof {
                lemma_fields_view(fields@);
            }
            while i < fields.len()
                invariant
                    0 <= i <= fields@.len(),
                    *v == JsonValue::Object(*fields),
                    fields_view(fields@).len() == fields@.len(),
                    forall|j: int| 0 <= j < fields@.len() ==> #[trigger] fields_view(fields@)[j] == (fields@[j].0@, value_view(fields@[j].1)),
                    out@ == start + render_fields(fields_view(fields@).subrange(0, i as int)),
                decreases fields@.len() - i,
            {
                if i > 0 {
                    push_comma(out);
                }
                push_text(out, &fields[i].0);
                let ghost mid = out@;
                out.push(':');
                out.push(' ');
                proof {
                    assert(out@ =~= mid + colon_space());
                    assert(decreases_to!(*v => v->Object_0));
                    assert(decreases_to!(v->Object_0 => fields@));
                    assert(decreases_to!(fields@ => fields@[i as int]));
                    assert(decreases_to!(fields@[i as int] => fields@[i as int].1));
                }
                render_into(&fields[i].1, out);
                proof {
                    let p = fields_view(fields@).subrange(0, i as int + 1);
                    assert(p.drop_last() =~= fields_view(fields@).subrange(0, i as int));
                    if i == 0 {
                        assert(p.len() == 1);
                    }
                    assert(out@ =~= start + render_fields(p));
                }
                i = i + 1;
            }
            proof {
                assert(fields_view(fields@).subrange(0, fields@.len() as int) =~= fields_view(fields@));
            }
        },
    }
}

} // verus!
