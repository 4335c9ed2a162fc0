//! The outcome of a JSON-RPC call, as far as it can be told from the parts of
//! the response.

use vstd::prelude::*;

verus! {

/// The version of the protocol that every request names.
pub const JSON_RPC_VERSION: &'static str = "2.0";

/// The server could not parse the request.
pub const PARSE_ERROR_CODE: i16 = -32700;

/// The request was no valid JSON-RPC request.
pub const INVALID_REQUEST_CODE: i16 = -32600;

/// The method asked for does not exist.
pub const METHOD_NOT_FOUND_CODE: i16 = -32601;

/// The parameters were not those of the method.
pub const INVALID_PARAMS_CODE: i16 = -32602;

/// The server failed on its side.
pub const INTERNAL_ERROR_CODE: i16 = -32603;

/// Why a JSON-RPC call failed.
#[derive(Debug)]
pub enum JsonRPCError {
    /// The server failed to parse the request.
    ParseError,
    /// The server received an invalid request.
    InvalidRequest,
    /// The server does not know the method.
    MethodNotFound,
    /// The parameters were invalid.
    InvalidParams,
    /// The server reported an internal error.
    InternalError { message: String, data: Option<String> },
    /// The server reported an error of its own.
    ServerError { code: i16, message: String, data: Option<String> },
    /// The response holds neither an error nor a result.
    MissingResult,
    /// A value could not be turned into JSON or back; the text says why.
    SerializationError(String),
    /// The transport failed; the text says why.
    HttpError(String),
}

/// The error object of a response: its code, its message, and its data
/// rendered as text if it has any.
pub struct ErrorResponse {
    pub code: i16,
    pub message: String,
    pub data: Option<String>,
}

/// What became of a request: how far it got, and what the response holds
/// if one came back and could be read.
pub enum ResponseParts {
    /// The request could not be sent, or no response came; the text says why.
    Unreachable(String),
    /// A response came whose body, or whose error object, could not be read;
    /// the text says why.
    Malformed(String),
    /// The response holds an error object.
    Failure(ErrorResponse),
    /// The response holds a result, and no error object.
    Result,
    /// The response holds neither.
    Nothing,
}

/// The error that an error object stands for: the five codes of the
/// protocol each have their own, and any other code is a server error that
/// keeps the code.
pub open spec fn error_of(code: i16, message: String, data: Option<String>) -> JsonRPCError {
    if code == PARSE_ERROR_CODE {
        JsonRPCError::ParseError
    } else if code == INVALID_REQUEST_CODE {
        JsonRPCError::InvalidRequest
    } else if code == METHOD_NOT_FOUND_CODE {
        JsonRPCError::MethodNotFound
    } else if code == INVALID_PARAMS_CODE {
        JsonRPCError::InvalidParams
    } else if code == INTERNAL_ERROR_CODE {
        JsonRPCError::InternalError { message, data }
    } else {
        JsonRPCError::ServerError { code, message, data }
    }
}

/// The error that an error object stands for.
pub fn classify_error(error: ErrorResponse) -> (r: JsonRPCError)
    ensures
        r == error_of(error.code, error.message, error.data),
{
    let ErrorResponse { code, message, data } = error;
    if code == PARSE_ERROR_CODE {
        JsonRPCError::ParseError
    } else if code == INVALID_REQUEST_CODE {
        JsonRPCError::InvalidRequest
    } else if code == METHOD_NOT_FOUND_CODE {
        JsonRPCError::MethodNotFound
    } else if code == INVALID_PARAMS_CODE {
        JsonRPCError::InvalidParams
    } else if code == INTERNAL_ERROR_CODE {
        JsonRPCError::InternalError { message, data }
    } else {
        JsonRPCError::ServerError { code, message, data }
    }
}

/// The outcome of a call: a failure of the transport or of the reading is
/// handed on, an error object wins over a result, and a response with
/// neither is a missing result.
pub fn outcome(parts: ResponseParts) -> (r: Result<(), JsonRPCError>)
    ensures
        match parts {
            ResponseParts::Unreachable(text) => r == Err::<(), JsonRPCError>(
                JsonRPCError::HttpError(text),
            ),
            ResponseParts::Malformed(text) => r == Err::<(), JsonRPCError>(
                JsonRPCError::SerializationError(text),
            ),
            ResponseParts::Failure(error) => r == Err::<(), JsonRPCError>(
                error_of(error.code, error.message, error.data),
            ),
            ResponseParts::Result => r is Ok,
            ResponseParts::Nothing => r == Err::<(), JsonRPCError>(JsonRPCError::MissingResult),
        },
{
    match parts {
        ResponseParts::Unreachable(text) => Err(JsonRPCError::HttpError(text)),
        ResponseParts::Malformed(text) => Err(JsonRPCError::SerializationError(text)),
        ResponseParts::Failure(error) => Err(classify_error(error)),
        ResponseParts::Result => Ok(()),
        ResponseParts::Nothing => Err(JsonRPCError::MissingResult),
    }
}

} // verus!
