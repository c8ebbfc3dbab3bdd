//! Field translation: derive a field from a pattern rendered over the record.

use vstd::prelude::*;

use crate::json::{fields_view, remove_field, set_field, with_key, without_key, FieldsView, JsonValue, JsonView};
use crate::pretty::{eval_program, FragmentView, PatternError, PrettyDescriptor};
use crate::text::{chars_of, is_blank, lemma_blank_iff_trimmed_empty, trim_chars};

verus! {

/// Writes what `pattern` renders into field `output`, or removes the field when that is blank.
pub struct Translation {
    output: String,
    pattern: PrettyDescriptor,
}

/// A translation as plain values.
pub struct TranslationView {
    pub output: Seq<char>,
    pub pattern: Seq<FragmentView>,
}

impl View for Translation {
    type V = TranslationView;

    closed spec fn view(&self) -> TranslationView {
        TranslationView { output: self.output@, pattern: self.pattern@ }
    }
}

/// One translation step: the rendering goes into the target field as a string; when it
/// is empty or white space only, the target field is removed instead.
pub open spec fn translate_spec(t: TranslationView, fields: FieldsView) -> FieldsView {
    let r = eval_program(t.pattern, fields);
    if is_blank(r) {
        without_key(fields, t.output)
    } else {
        with_key(fields, t.output, JsonView::Str(r))
    }
}

/// The steps of `ts` applied in order, each to the result of the one before.
pub open spec fn translate_all_spec(ts: Seq<TranslationView>, fields: FieldsView) -> FieldsView
    decreases ts.len(),
{
    if ts.len() == 0 {
        fields
    } else {
        translate_spec(ts.last(), translate_all_spec(ts.drop_last(), fields))
    }
}

pub open spec fn translations_view(ts: Seq<Translation>) -> Seq<TranslationView> {
    ts.map_values(|t: Translation| t@)
}

impl Translation {
    /// A translation into field `output` of the pattern `raw`.
    pub fn parse(output: String, raw: &str) -> (r: Result<Translation, PatternError>)
        ensures
            r matches Ok(t) ==> t@.output == output@ && PrettyDescriptor::parse_result(raw@) == Ok::<Seq<FragmentView>, PatternError>(t@.pattern),
            r matches Err(e) ==> PrettyDescriptor::parse_result(raw@) == Err::<Seq<FragmentView>, PatternError>(e),
    {
        match PrettyDescriptor::parse(raw) {
            Ok(pattern) => Ok(Translation { output, pattern }),
            Err(e) => Err(e),
        }
    }

    /// Applies the translation to `values`.
    pub fn translate(&self, values: &mut Vec<(String, JsonValue)>)
        ensures
            fields_view(final(values)@) == translate_spec(self@, fields_view(old(values)@)),
    {
        let result = self.pattern.print_to_string(values);
        let cs = chars_of(result.as_str());
        let trimmed = trim_chars(&cs);
        proof {
            lemma_blank_iff_trimmed_empty(result@);
        }
        if trimmed.len() == 0 {
            remove_field(values, &self.output);
        } else {
            set_field(values, self.output.clone(), JsonValue::Str(result));
        }
    }
}

/// Applies every translation of `ts` to `values`, in order.
pub fn translate_all(ts: &Vec<Translation>, values: &mut Vec<(String, JsonValue)>)
    ensures
        fields_view(final(values)@) == translate_all_spec(translations_view(ts@), fields_view(old(values)@)),
{
    let mut i: usize = 0;
    while i < ts.len()
        invariant
            0 <= i <= ts@.len(),
            fields_view(values@) == translate_all_spec(
                translations_view(ts@).subrange(0, i as int),
                fields_view(old(values)@),
            ),
        decreases ts@.len() - i,
    {
        proof {
            assert(translations_view(ts@).subrange(0, i as int + 1).drop_last() =~= translations_view(ts@).subrange(0, i as int));
        }
        ts[i].translate(values);
        i = i + 1;
    }
    proof {
        assert(translations_view(ts@).subrange(0, ts@.len() as int) =~= translations_view(ts@));
    }
}

} // verus!
