//! Error types and conversions used by the public API layer.
//!
//! Provides a lightweight Error enum that maps application errors into
//! HTTP responses with a consistent body shape.

use crate::order;
use crate::text;
use vstd::prelude::*;

verus! {

/// Machine-readable error code used in API responses.
pub type Code = String;

/// Human-readable error message used in API responses.
pub type Message = String;

/// API error which can be answered with an HTTP response.
#[derive(Debug)]
pub enum Error {
    /// Resource not found. Returns 404.
    NotFound(Code, Message),
    /// Client error. Returns 400.
    BadRequest(Code, Message),
    /// Validation error. Returns 400; the field-level errors come beside it.
    Validation,
    /// Unexpected internal error, by its text. Returns 500.
    Internal(Message),
}

/// What a response says of an error: the HTTP status, and the code and message of the body. A
/// validation error has field-level errors in the place of a message.
#[derive(Debug)]
pub struct ErrorBody {
    pub status: u16,
    pub code: Code,
    pub message: Option<Message>,
}

/// `text` is `before`, `subject` and `after` joined.
pub open spec fn says(text: Message, before: &str, subject: Seq<char>, after: &str) -> bool {
    text@ == before@ + subject + after@
}

/// `api` is what a book error is to a client: an order that is missing or exists already is its
/// own fault, anything else is internal.
pub open spec fn maps_to(book: order::book::Error, api: Error) -> bool {
    match book {
        order::book::Error::OrderIdNotFound(id) => {
            &&& api matches Error::NotFound(code, message)
            &&& code@ == "ORDER_NOT_FOUND"@
            &&& says(message, "order with id ", text::decimal_chars(id as nat), " not found")
        },
        order::book::Error::OrderIdExists(id) => {
            &&& api matches Error::BadRequest(code, message)
            &&& code@ == "ORDER_ALREADY_EXISTS"@
            &&& says(message, "order with id ", text::decimal_chars(id as nat), " already exists")
        },
        order::book::Error::OrderClientIdNotFound(client_id) => {
            &&& api matches Error::NotFound(code, message)
            &&& code@ == "ORDER_NOT_FOUND"@
            &&& says(message, "order with client id ", client_id@, " not found")
        },
        order::book::Error::OrderClientIdExists(client_id) => {
            &&& api matches Error::BadRequest(code, message)
            &&& code@ == "ORDER_ALREADY_EXISTS"@
            &&& says(message, "order with client id ", client_id@, " already exists")
        },
        _ => {
            &&& api matches Error::Internal(message)
            &&& message@ == book.text()
        },
    }
}

/// The three parts of a message, joined.
fn say(before: &str, subject: &String, after: &str) -> (res: Message)
    ensures
        says(res, before, subject@, after),
{
    before.to_string().concat(subject.as_str()).concat(after)
}

/// Convert domain-level order book errors into API errors.
impl From<order::book::Error> for Error {
    fn from(value: order::book::Error) -> (res: Self)
        ensures
            maps_to(value, res),
    {
        match value {
            order::book::Error::OrderIdNotFound(id) => Error::NotFound(
                "ORDER_NOT_FOUND".to_string(),
                say("order with id ", &text::decimal(id), " not found"),
            ),
            order::book::Error::OrderIdExists(id) => Error::BadRequest(
                "ORDER_ALREADY_EXISTS".to_string(),
                say("order with id ", &text::decimal(id), " already exists"),
            ),
            order::book::Error::OrderClientIdNotFound(client_id) => Error::NotFound(
                "ORDER_NOT_FOUND".to_string(),
                say("order with client id ", &client_id, " not found"),
            ),
            order::book::Error::OrderClientIdExists(client_id) => Error::BadRequest(
                "ORDER_ALREADY_EXISTS".to_string(),
                say("order with client id ", &client_id, " already exists"),
            ),
            order::book::Error::AnotherSnapshotAlreadyTaken => Error::Internal(value.message()),
            order::book::Error::NoSnapshotTaken => Error::Internal(value.message()),
            order::book::Error::NotReady => Error::Internal(value.message()),
        }
    }
}

impl vstd::std_specs::convert::FromSpecImpl<order::book::Error> for Error {
    open spec fn obeys_from_spec() -> bool {
        false
    }

    open spec fn from_spec(value: order::book::Error) -> Self {
        arbitrary()
    }
}

impl Error {
    /// What the response says. The text of an internal error is shown only where `debug` is on.
    pub fn response(self, debug: bool) -> (res: ErrorBody)
        ensures
            match self {
                Error::NotFound(code, message) => res == (ErrorBody {
                    status: 404,
                    code,
                    message: Some(message),
                }),
                Error::BadRequest(code, message) => res == (ErrorBody {
                    status: 400,
                    code,
                    message: Some(message),
                }),
                Error::Validation => {
                    &&& res.status == 400
                    &&& res.code@ == "VALIDATION_ERROR"@
                    &&& res.message is None
                },
                Error::Internal(text) => {
                    &&& res.status == 500
                    &&& res.code@ == "INTERNAL_ERROR"@
                    &&& res.message matches Some(message)
                    &&& message@ == if debug {
                        text@
                    } else {
                        "an internal error happened during processing your request"@
                    }
                },
            },
    {
        match self {
            Error::NotFound(code, message) => ErrorBody {
                status: 404,
                code,
                message: Some(message),
            },
            Error::BadRequest(code, message) => ErrorBody {
                status: 400,
                code,
                message: Some(message),
            },
            Error::Validation => ErrorBody {
                status: 400,
                code: "VALIDATION_ERROR".to_string(),
                message: None,
            },
            Error::Internal(text) => ErrorBody {
                status: 500,
                code: "INTERNAL_ERROR".to_string(),
                message: Some(
                    if debug {
                        text
                    } else {
                        "an internal error happened during processing your request".to_string()
                    },
                ),
            },
        }
    }
}

/// What a client is told of a book error: an order that is missing is not found, one that exists
/// already is a bad request, and all else is internal. The message names the order, by its id in
/// decimal digits or by its client id.
pub proof fn law_clients_are_told_which_order(book: order::book::Error, api: Error)
    requires
        maps_to(book, api),
    ensures
        book is OrderIdNotFound || book is OrderClientIdNotFound <==> api is NotFound,
        book is OrderIdExists || book is OrderClientIdExists <==> api is BadRequest,
        book is AnotherSnapshotAlreadyTaken || book is NoSnapshotTaken || book is NotReady
            <==> api is Internal,
        api matches Error::NotFound(code, message) ==> {
            &&& code@ == "ORDER_NOT_FOUND"@
            &&& book matches order::book::Error::OrderIdNotFound(id) ==> message@
                == "order with id "@ + text::decimal_chars(id as nat) + " not found"@
            &&& book matches order::book::Error::OrderClientIdNotFound(client_id) ==> message@
                == "order with client id "@ + client_id@ + " not found"@
        },
        api matches Error::BadRequest(code, message) ==> {
            &&& code@ == "ORDER_ALREADY_EXISTS"@
            &&& book matches order::book::Error::OrderIdExists(id) ==> message@
                == "order with id "@ + text::decimal_chars(id as nat) + " already exists"@
            &&& book matches order::book::Error::OrderClientIdExists(client_id) ==> message@
                == "order with client id "@ + client_id@ + " already exists"@
        },
        api matches Error::Internal(message) ==> message@ == book.text(),
{
}

/// Two orders that are told to be missing by the same message are the same order.
pub proof fn law_messages_tell_orders_apart(a: order::Id, b: order::Id, x: Message, y: Message)
    requires
        says(x, "order with id ", text::decimal_chars(a as nat), " not found"),
        says(y, "order with id ", text::decimal_chars(b as nat), " not found"),
        x@ == y@,
    ensures
        a == b,
{
    let before = "order with id "@;
    let after = " not found"@;
    let l = text::decimal_chars(a as nat);
    let r = text::decimal_chars(b as nat);
    assert(x@.len() == before.len() + l.len() + after.len());
    assert(y@.len() == before.len() + r.len() + after.len());
    assert(x@.subrange(before.len() as int, (before.len() + l.len()) as int) =~= l);
    assert(y@.subrange(before.len() as int, (before.len() + r.len()) as int) =~= r);
    text::law_decimal_tells_the_number(a as nat, b as nat);
}

} // verus!
