//! Display rules for commands that show the mutation log.

use crate::decimal::magnitude;
use crate::text::str_eq;
use vstd::prelude::*;

verus! {

/// Created, deleted and renamed files are always shown, empty ones included; other
/// changes only if the size changed by two bytes or more.
pub open spec fn displayable(kind: Seq<char>, size_delta: int) -> bool {
    ||| kind == "Created"@
    ||| kind == "Deleted"@
    ||| kind == "Renamed"@
    ||| size_delta >= 2
    ||| size_delta <= -2
}

/// Whether a mutation is shown.
pub fn is_displayable_mutation(kind: &str, size_delta: i64) -> (r: bool)
    ensures
        r == displayable(kind@, size_delta as int),
{
    str_eq(kind, "Created") || str_eq(kind, "Deleted") || str_eq(kind, "Renamed") || magnitude(
        size_delta,
    ) >= 2
}

/// Two consecutive rows of a history are the same to a reader: the same file under
/// the same name, and the same kind of change, which is not a modification.
pub open spec fn aggregates(
    a_kind: Seq<char>,
    a_file_id: u64,
    a_name: Seq<char>,
    b_kind: Seq<char>,
    b_file_id: u64,
    b_name: Seq<char>,
) -> bool {
    &&& a_kind != "Modified"@
    &&& a_kind == b_kind
    &&& a_file_id == b_file_id
    &&& a_name == b_name
}

/// Whether two consecutive rows of a history can be shown as one.
pub fn can_aggregate_history_entries(
    a_kind: &str,
    a_file_id: u64,
    a_name: &str,
    b_kind: &str,
    b_file_id: u64,
    b_name: &str,
) -> (r: bool)
    ensures
        r == aggregates(a_kind@, a_file_id, a_name@, b_kind@, b_file_id, b_name@),
{
    if str_eq(a_kind, "Modified") || str_eq(b_kind, "Modified") {
        return false;
    }
    str_eq(a_kind, b_kind) && a_file_id == b_file_id && str_eq(a_name, b_name)
}

} // verus!
