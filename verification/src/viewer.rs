//! What the viewer shows of a result, and of a failure.
use crate::coordinator::projection::QueryResult;
use crate::wire::{Code, NodeProperties, Value};
use vstd::prelude::*;
use vstd::string::*;

verus! {

/// What is shown of a projected item.
#[derive(Debug)]
pub enum ViewerEntry<'a> {
    /// The record of a node.
    Record(&'a NodeProperties),
    /// The projected value itself.
    NodeId(&'a Value),
}

/// What is shown of an item: its record if there is one, else its value.
pub fn viewer_entry<'a>(result: &'a QueryResult, name: &str) -> (r: Option<ViewerEntry<'a>>)
    ensures
        match r {
            None => !result@.projection.dom().contains(name@),
            Some(ViewerEntry::Record(record)) => result@.projection.dom().contains(name@)
                && result@.properties.dom().contains(name@) && record@
                == result@.properties[name@],
            Some(ViewerEntry::NodeId(value)) => result@.projection.dom().contains(name@)
                && !result@.properties.dom().contains(name@) && value@
                == result@.projection[name@],
        },
{
    match result.projection.get(name) {
        None => None,
        Some(value) => match result.properties.get(name) {
            Some(record) => Some(ViewerEntry::Record(record)),
            None => Some(ViewerEntry::NodeId(value)),
        },
    }
}

/// The HTTP status of a failure: the client's fault, the cluster's, or
/// another.
pub open spec fn http_status_of(code: Code) -> u16 {
    match code {
        Code::InvalidArgument => 400,
        Code::Unavailable | Code::DeadlineExceeded => 502,
        _ => 500,
    }
}

pub fn http_status(code: Code) -> (r: u16)
    ensures
        r == http_status_of(code),
{
    match code {
        Code::InvalidArgument => 400,
        Code::Unavailable | Code::DeadlineExceeded => 502,
        _ => 500,
    }
}

/// What the viewer says when the coordinator cannot be reached.
pub fn unreachable_text(address: &str, error: &str) -> (r: String)
    ensures
        r@ == "couldn't reach graph-coordinator at "@ + address@ + ": "@ + error@,
{
    let mut text: String = "couldn't reach graph-coordinator at ".to_owned();
    text.append(address);
    text.append(": ");
    text.append(error);
    text
}

/// A failure is shown as the client's fault exactly where a request was wrong,
/// as a fault behind the viewer where no answer came in time, and as a fault
/// within otherwise.
pub proof fn law_failures_are_shown_by_whose_fault_they_are(code: Code)
    ensures
        400 <= http_status_of(code) < 500 <==> code == Code::InvalidArgument,
        http_status_of(code) == 502 <==> code == Code::Unavailable || code
            == Code::DeadlineExceeded,
        http_status_of(code) == 400 || http_status_of(code) == 500 || http_status_of(code) == 502,
{
}

} // verus!
