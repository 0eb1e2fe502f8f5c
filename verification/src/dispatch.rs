//! Request dispatcher: authenticate one decoded request, route it to the
//! storage operation its action names, and shape the response. The caller
//! holds the one exclusive lock over the whole storage state for the
//! duration of the call, so storage operations are strictly serialized.
use vstd::prelude::*;
use vstd::utf8::encode_utf8;

use crate::auth::{spec_verify, AuthDB};
use crate::storage::{
    create_post, insert_has_no_result, insert_post, select_has_no_stride, select_post, unchanged,
    Storage,
};

verus! {

/// The authentication block of a request.
pub struct Credentials {
    pub user: String,
    pub password: String,
}

/// The parameters of a request; fields the action does not use are ignored.
pub struct Params {
    pub table: String,
    pub columns: Vec<String>,
    pub values: Vec<String>,
}

/// One structured request, as decoded from a frame.
pub struct Request {
    pub action: String,
    pub params: Params,
    pub auth: Credentials,
}

/// One structured response, to be encoded into a frame.
pub enum Response {
    /// Authentication failed: status "error" with a message, state untouched.
    Denied { message: String },
    /// The action is not one of the three known ones: status "error" with a
    /// message, state untouched.
    Unknown { message: String },
    /// The outcome of create_table: a status and its message.
    Created { ok: bool, message: String },
    /// The outcome of insert: a status and the code of the first cell's value.
    Inserted { ok: bool, result: Option<String> },
    /// The outcome of select: a status and the rows.
    Selected { ok: bool, rows: Vec<Vec<(String, String)>> },
}

/// Handle one authenticated request: verify the credentials, then dispatch
/// on the action name to the storage operation, producing exactly one
/// response. Bad credentials are denied, good ones accepted unless the key
/// derivation itself reported failure (that too is answered as a denial, the
/// recoverable reading of the failure); an unknown action is answered with an
/// error; neither touches the storage state.
pub fn handle_request(storage: &mut Storage, authdb: &AuthDB, req: &Request) -> (r: Response)
    requires
        old(storage).wf(),
        authdb.wf(),
        encode_utf8(req.auth.password@).len() <= 0x7fff_ffff,
        req.action@ == "insert"@ ==> !insert_has_no_result(
            *old(storage),
            req.params.table@,
            req.params.values@,
        ),
        req.action@ == "select"@ ==> !select_has_no_stride(*old(storage), req.params.table@),
    ensures
        final(storage).wf(),
        r matches Response::Denied { message } ==> message@ == "auth_failed"@ && unchanged(
            *old(storage),
            *final(storage),
        ),
        !spec_verify(authdb.users@, req.auth.user@, encode_utf8(req.auth.password@))
            ==> r matches Response::Denied { message: _ },
        !(r matches Response::Denied { message: _ }) ==> spec_verify(
            authdb.users@,
            req.auth.user@,
            encode_utf8(req.auth.password@),
        ),
        !(r matches Response::Denied { message: _ }) ==> if req.action@ == "create_table"@ {
            r matches Response::Created { ok, message } && ok == true && create_post(
                *old(storage),
                *final(storage),
                req.params.table@,
                req.params.columns@,
                message@,
            )
        } else if req.action@ == "insert"@ {
            r matches Response::Inserted { ok, result } && insert_post(
                *old(storage),
                *final(storage),
                req.params.table@,
                req.params.values@,
                ok,
                result,
            )
        } else if req.action@ == "select"@ {
            r matches Response::Selected { ok, rows } && select_post(
                *old(storage),
                req.params.table@,
                ok,
                rows.deep_view(),
            ) && unchanged(*old(storage), *final(storage))
        } else {
            r matches Response::Unknown { message } && message@ == "unknown_action"@ && unchanged(
                *old(storage),
                *final(storage),
            )
        },
{
    match authdb.verify(req.auth.user.as_str(), req.auth.password.as_str()) {
        Some(true) => {},
        _ => {
            return Response::Denied { message: String::from_str("auth_failed") };
        },
    }
    let create_name = String::from_str("create_table");
    let insert_name = String::from_str("insert");
    let select_name = String::from_str("select");
    if req.action == create_name {
        let columns = req.params.columns.clone();
        proof {
            assert(columns@ =~= req.params.columns@);
        }
        let (ok, message) = storage.create_table(req.params.table.as_str(), columns);
        Response::Created { ok, message }
    } else if req.action == insert_name {
        let values = req.params.values.clone();
        proof {
            assert(values@ =~= req.params.values@);
        }
        let (ok, result) = storage.insert(req.params.table.as_str(), values);
        Response::Inserted { ok, result }
    } else if req.action == select_name {
        let (ok, rows) = storage.select(req.params.table.as_str());
        Response::Selected { ok, rows }
    } else {
        Response::Unknown { message: String::from_str("unknown_action") }
    }
}

} // verus!
