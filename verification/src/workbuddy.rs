//! Usage of WorkBuddy sessions, which are stored as traces.

use crate::patterns;
use crate::patterns::find_group;
use crate::text;
use crate::traces;
use crate::traces::combine_trace_outcomes;
use crate::usage;
use crate::usage::{FileOutcome, SessionSyncResult};
use vstd::prelude::*;
use vstd::string::*;

verus! {

/// The model of a span: what `powered by` names in its input, else the first
/// model of the trace, else `unknown`.
pub open spec fn span_model(tool_input: Seq<char>, models: Seq<Seq<char>>) -> Seq<char> {
    match patterns::regex_group("powered by ([A-Za-z0-9.-]+)"@, tool_input, 1) {
        Some(m) => m,
        None => if models.len() > 0 {
            models[0]
        } else {
            "unknown"@
        },
    }
}

/// The model of a span, given what `powered by` names in its input.
pub fn choose_model(powered_by: Option<String>, models: &Vec<String>) -> (r: String)
    ensures
        r@ == (match powered_by {
            Some(m) => m@,
            None => if models@.len() > 0 {
                models@[0]@
            } else {
                "unknown"@
            },
        }),
{
    match powered_by {
        Some(m) => m,
        None => if models.len() > 0 {
            models[0].clone()
        } else {
            "unknown".to_owned()
        },
    }
}

/// Finds the model of a span.
pub fn extract_model(tool_input: &str, models: &Vec<String>) -> (r: String)
    ensures
        r@ == span_model(tool_input@, text::views(models@)),
{
    choose_model(find_group("powered by ([A-Za-z0-9.-]+)", tool_input, 1), models)
}

/// Adds up what syncing the traces gave. No traces directory, or one that
/// cannot be read, means that there is nothing to import.
pub fn sync_workbuddy_traces_dir(outcomes: Option<Vec<FileOutcome>>) -> (r: SessionSyncResult)
    ensures
        usage::shows_totals(r, traces::trace_totals(outcomes)),
{
    combine_trace_outcomes(outcomes)
}

/// Adds up what syncing the traces gave.
pub fn sync_workbuddy_usage(outcomes: Option<Vec<FileOutcome>>) -> (r: SessionSyncResult)
    ensures
        usage::shows_totals(r, traces::trace_totals(outcomes)),
{
    sync_workbuddy_traces_dir(outcomes)
}

/// A span has the model that it is powered by; without one, the first model of the
/// trace; and `unknown` where there is none.
pub proof fn law_span_has_its_model(
    tool_input: Seq<char>,
    models: Seq<Seq<char>>,
    name: Seq<char>,
)
    ensures
        ({
            let powered = patterns::regex_group("powered by ([A-Za-z0-9.-]+)"@, tool_input, 1);
            &&& powered == Some(name) ==> span_model(tool_input, models) == name
            &&& powered is None && models.len() > 0 ==> span_model(tool_input, models) == models[0]
            &&& powered is None && models.len() == 0 ==> span_model(tool_input, models)
                == "unknown"@
        }),
{
}

/// The model that a span is powered by goes before those of the trace, and of
/// those the first is taken.
pub proof fn law_powering_model_goes_first(powered: Option<String>, models: Vec<String>, r: String)
    requires
        call_ensures(choose_model, (powered, &models), r),
    ensures
        powered matches Some(m) ==> r@ == m@,
        powered is None && models@.len() > 0 ==> r@ == models@[0]@,
        powered is None && models@.len() == 0 ==> r@ == "unknown"@,
{
}

} // verus!
