//! The models of the library's types hold what the values hold.

use crate::command::Command;
use crate::matching::Entry;
use crate::param::{Number, NumberModel, Param, ParamModel};
use crate::pattern::{Segment, SegmentModel};
use vstd::prelude::*;

verus! {

/// The model of a number is the integer, or the characters of the literal.
pub proof fn law_number_model(v: u64, s: String)
    ensures
        Number::Integer(v)@ == NumberModel::Integer(v),
        Number::Decimal(s)@ == NumberModel::Decimal(s@),
{
}

/// The model of a parameter is its value.
pub proof fn law_param_model(n: Number, b: bool, s: String)
    ensures
        Param::Numeric(n)@ == ParamModel::Numeric(n@),
        Param::Numeric(n).deep_view() == ParamModel::Numeric(n@),
        Param::Bool(b)@ == ParamModel::Bool(b),
        Param::Bool(b).deep_view() == ParamModel::Bool(b),
        Param::String(s)@ == ParamModel::String(s@),
        Param::String(s).deep_view() == ParamModel::String(s@),
{
}

/// The model of a command is its index, its parameters in order and its suffix
/// values in order.
pub proof fn law_command_model(c: Command)
    ensures
        c@ == c.deep_view(),
        c@.index == c.index,
        c@.params.len() == c.params@.len(),
        forall|i: int| 0 <= i < c.params@.len() ==> #[trigger] c@.params[i] == c.params@[i]@,
        c@.suffixes == c.suffixes@,
{
}

/// The model of a segment is its two forms, or the placeholder.
pub proof fn law_segment_model(short: String, long: String)
    ensures
        (Segment::Keyword { short, long })@ == (SegmentModel::Keyword {
            short: short@,
            long: long@,
        }),
        (Segment::Keyword { short, long }).deep_view() == (SegmentModel::Keyword {
            short: short@,
            long: long@,
        }),
        Segment::NumericSuffix@ == SegmentModel::NumericSuffix,
        Segment::NumericSuffix.deep_view() == SegmentModel::NumericSuffix,
{
}

/// The model of an entry is its segments and its groups in order, whether it is a
/// query, and its parameter.
pub proof fn law_entry_model<H>(e: Entry<H>)
    ensures
        e@.segments.len() == e.segments@.len(),
        forall|i: int|
            0 <= i < e.segments@.len() ==> #[trigger] e@.segments[i] == e.segments@[i]@,
        e@.groups.len() == e.optional_groups@.len(),
        forall|i: int|
            0 <= i < e.optional_groups@.len() ==> (#[trigger] e@.groups[i]).start
                == e.optional_groups@[i].start && e@.groups[i].end == e.optional_groups@[i].end,
        e@.is_query == e.is_query,
        e@.param == e.param,
{
}

} // verus!
