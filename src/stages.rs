//! The per-record stage chain: time range, content filter, translations, rendering.

use vstd::prelude::*;

use crate::filter::{all_hold, FilterSet};
use crate::json::fields_view;
use crate::log::Line;
use crate::pretty::{eval_program, PrettyDescriptor};
use crate::time::{in_range, TimeRange};
use crate::translate::{translate_all, translate_all_spec, translations_view, Translation};

verus! {

/// The first two bytes of a gzip stream.
pub open spec fn is_gzip_magic(head: Seq<u8>) -> bool {
    head.len() >= 2 && head[0] == 0x1f && head[1] == 0x8b
}

/// Whether an input that begins with `head` is gzip-framed.
pub fn is_gzip(head: &[u8]) -> (r: bool)
    ensures
        r == is_gzip_magic(head@),
{
    head.len() >= 2 && head[0] == 0x1f && head[1] == 0x8b
}

/// The configured stages that every merged record goes through.
pub struct Stages {
    pub range: TimeRange,
    pub filter: Option<FilterSet>,
    pub translations: Vec<Translation>,
    pub pretty: Option<PrettyDescriptor>,
}

/// Whether a record passes the time range and then the filter set, if any.
pub open spec fn admitted(stages: Stages, line: Line) -> bool {
    in_range(stages.range, line.time) && match stages.filter {
        Some(f) => all_hold(f.clauses(), fields_view(line.value@)),
        None => true,
    }
}

impl Stages {
    /// Whether `line` is kept: inside the time range and passing every filter clause.
    pub fn admits(&self, line: &Line) -> (r: bool)
        ensures
            r == admitted(*self, *line),
    {
        if !self.range.contains(&line.time) {
            return false;
        }
        match &self.filter {
            Some(f) => f.matches(&line.value),
            None => true,
        }
    }

    /// Applies the translations, in order, to the record's fields.
    pub fn translate(&self, line: &mut Line)
        ensures
            fields_view(final(line).value@) == translate_all_spec(
                translations_view(self.translations@),
                fields_view(old(line).value@),
            ),
            final(line).time == old(line).time,
            final(line).src == old(line).src,
    {
        translate_all(&self.translations, &mut line.value);
    }

    /// The text line of a record under the output pattern; `None` when the output is JSON.
    pub fn render(&self, line: &Line) -> (r: Option<String>)
        ensures
            self.pretty is None ==> r is None,
            self.pretty matches Some(p) ==> r matches Some(s) && s@ == eval_program(p@, fields_view(line.value@)),
    {
        match &self.pretty {
            Some(p) => Some(p.print_to_string(&line.value)),
            None => None,
        }
    }
}

} // verus!
