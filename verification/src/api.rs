use vstd::prelude::*;
use crate::error::{error_status_code, Error};
use crate::models::EntryRequest;
use crate::text::{blank, is_blank};

verus! {

/// Query parameters of a delete request.
#[derive(Debug, Clone, Copy, PartialEq, Eq, Structural)]
pub struct DeleteParams {
    /// Whether the entry's log directory is removed too.
    pub cleanup_logs: bool,
}

/// Query parameters of a log request.
#[derive(Debug, Clone, Copy, PartialEq, Eq, Structural)]
pub struct LogQuery {
    pub offset: usize,
    pub limit: usize,
}

/// How many log lines a request returns when it does not say.
pub fn default_limit() -> (n: usize)
    ensures
        n == 500,
{
    500
}

/// What a create or update request is refused for, if anything: a blank name, a
/// zero source port, a zero target port or a blank target address, checked in
/// that order.
pub open spec fn request_problem(req: EntryRequest) -> Option<Seq<char>> {
    if blank(req.name@) {
        Some("名称不能为空"@)
    } else if req.source_port == 0 {
        Some("源端口必须在 1-65535 之间"@)
    } else if req.target_port == 0 {
        Some("目标端口必须在 1-65535 之间"@)
    } else if blank(req.target_address@) {
        Some("目标地址不能为空"@)
    } else {
        None
    }
}

/// A request is accepted exactly when its name and target address hold more than
/// white space and both ports are nonzero; a refusal names the first of these, in
/// that order, that fails.
pub proof fn law_request_accepted(req: EntryRequest)
    ensures
        request_problem(req) is None <==> (!blank(req.name@) && req.source_port != 0 && req.target_port != 0
            && !blank(req.target_address@)),
        blank(req.name@) ==> request_problem(req) == Some("名称不能为空"@),
        !blank(req.name@) && req.source_port == 0 ==> request_problem(req) == Some("源端口必须在 1-65535 之间"@),
        !blank(req.name@) && req.source_port != 0 && req.target_port == 0
            ==> request_problem(req) == Some("目标端口必须在 1-65535 之间"@),
{
}

/// Checks a create or update request; the error is the message shown to the user.
pub fn validate_entry_request(req: &EntryRequest) -> (r: Result<(), String>)
    ensures
        match request_problem(*req) {
            Some(m) => r matches Err(msg) && msg@ == m,
            None => r is Ok,
        },
{
    if is_blank(req.name.as_str()) {
        return Err(String::from_str("名称不能为空"));
    }
    if req.source_port == 0 {
        return Err(String::from_str("源端口必须在 1-65535 之间"));
    }
    if req.target_port == 0 {
        return Err(String::from_str("目标端口必须在 1-65535 之间"));
    }
    if is_blank(req.target_address.as_str()) {
        return Err(String::from_str("目标地址不能为空"));
    }
    Ok(())
}

/// The HTTP status code for an error of a start or stop request: 404 for a missing
/// entry, 409 for a conflict, 500 otherwise.
pub fn map_error_status(e: &Error) -> (code: u16)
    ensures
        code == error_status_code(*e),
{
    match e {
        Error::NotFound(_) => 404,
        Error::InvalidState { .. } => 409,
        Error::PortInUse(_) => 409,
        Error::BindError { .. } => 500,
        _ => 500,
    }
}

} // verus!
