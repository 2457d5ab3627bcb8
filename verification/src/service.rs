//! The chart tools besides verification: validation and rendering.
use vstd::prelude::*;
use crate::chart::{parse_chart, xml_parses, xml_initial, xml_states, chart_initial_id, chart_state_list,
    validate_chart_structure, chart_to_mermaid, mermaid_header, passes_chart_checks};
use crate::tools::ToolError;

verus! {

/// Errors caused by the chart input itself.
pub open spec fn is_input_error(e: ToolError) -> bool {
    e is Parse || e is Validate
}

/// Parse a chart and run the structural checks on it: a parse error
/// exactly when the document does not parse, else the checks' verdict.
pub fn checked_chart(xml: &str) -> (r: Result<scxml::Statechart, ToolError>)
    ensures
        r matches Err(e) ==> is_input_error(e),
        r matches Err(ToolError::Parse(_)) <==> !xml_parses(xml@),
        r matches Ok(c) ==> chart_initial_id(c) == xml_initial(xml@) && chart_state_list(c) == xml_states(xml@)
            && passes_chart_checks(chart_initial_id(c), chart_state_list(c)),
{
    let chart = match parse_chart(xml) {
        Err(e) => return Err(ToolError::Parse(e)),
        Ok(c) => c,
    };
    match validate_chart_structure(&chart) {
        Err(e) => Err(ToolError::Validate(e)),
        Ok(()) => Ok(chart),
    }
}

/// Validate a chart: `OK`, or the parse or validation error.
pub fn validate_chart(xml: &str) -> (r: Result<String, ToolError>)
    ensures
        match r {
            Ok(s) => s@ == "OK"@,
            Err(e) => is_input_error(e),
        },
        r matches Err(ToolError::Parse(_)) <==> !xml_parses(xml@),
        r is Ok ==> passes_chart_checks(xml_initial(xml@), xml_states(xml@)),
{
    let _chart = checked_chart(xml)?;
    Ok(String::from_str("OK"))
}

/// Render a chart that passes validation as a Mermaid diagram, which
/// starts with the entry arrow to the document's initial state.
pub fn visualise_chart(xml: &str) -> (r: Result<String, ToolError>)
    ensures
        r matches Err(e) ==> is_input_error(e),
        r matches Err(ToolError::Parse(_)) <==> !xml_parses(xml@),
        r matches Ok(s) ==> mermaid_header(xml_initial(xml@)).is_prefix_of(s@),
        r is Ok ==> passes_chart_checks(xml_initial(xml@), xml_states(xml@)),
{
    let chart = checked_chart(xml)?;
    Ok(chart_to_mermaid(&chart))
}

} // verus!
