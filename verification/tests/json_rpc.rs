use xelis_core::json_rpc::{
    classify_error, outcome, ErrorResponse, JsonRPCError, ResponseParts, INTERNAL_ERROR_CODE,
    INVALID_PARAMS_CODE, INVALID_REQUEST_CODE, JSON_RPC_VERSION, METHOD_NOT_FOUND_CODE,
    PARSE_ERROR_CODE,
};

fn error(code: i16) -> ErrorResponse {
    ErrorResponse { code, message: "why".to_string(), data: Some("{}".to_string()) }
}

#[test]
fn protocol_constants() {
    assert_eq!(JSON_RPC_VERSION, "2.0");
    assert_eq!(PARSE_ERROR_CODE, -32700);
    assert_eq!(INVALID_REQUEST_CODE, -32600);
    assert_eq!(METHOD_NOT_FOUND_CODE, -32601);
    assert_eq!(INVALID_PARAMS_CODE, -32602);
    assert_eq!(INTERNAL_ERROR_CODE, -32603);
}

#[test]
fn protocol_codes_have_their_own_errors() {
    assert!(matches!(classify_error(error(-32700)), JsonRPCError::ParseError));
    assert!(matches!(classify_error(error(-32600)), JsonRPCError::InvalidRequest));
    assert!(matches!(classify_error(error(-32601)), JsonRPCError::MethodNotFound));
    assert!(matches!(classify_error(error(-32602)), JsonRPCError::InvalidParams));
}

#[test]
fn internal_error_keeps_message_and_data() {
    match classify_error(error(-32603)) {
        JsonRPCError::InternalError { message, data } => {
            assert_eq!(message, "why");
            assert_eq!(data, Some("{}".to_string()));
        }
        other => panic!("unexpected {:?}", other),
    }
}

#[test]
fn other_codes_are_server_errors_that_keep_the_code() {
    for code in [0i16, 1, -1, -32000, -32604, -32699, i16::MIN, i16::MAX] {
        match classify_error(ErrorResponse { code, message: "m".to_string(), data: None }) {
            JsonRPCError::ServerError { code: got, message, data } => {
                assert_eq!(got, code);
                assert_eq!(message, "m");
                assert_eq!(data, None);
            }
            other => panic!("unexpected {:?}", other),
        }
    }
}

#[test]
fn outcome_hands_on_transport_and_reading_failures() {
    match outcome(ResponseParts::Unreachable("refused".to_string())) {
        Err(JsonRPCError::HttpError(text)) => assert_eq!(text, "refused"),
        other => panic!("unexpected {:?}", other),
    }
    match outcome(ResponseParts::Malformed("not json".to_string())) {
        Err(JsonRPCError::SerializationError(text)) => assert_eq!(text, "not json"),
        other => panic!("unexpected {:?}", other),
    }
}

#[test]
fn outcome_of_response_parts() {
    assert!(outcome(ResponseParts::Result).is_ok());
    assert!(matches!(outcome(ResponseParts::Nothing), Err(JsonRPCError::MissingResult)));
    assert!(matches!(
        outcome(ResponseParts::Failure(error(-32601))),
        Err(JsonRPCError::MethodNotFound)
    ));
    assert!(matches!(
        outcome(ResponseParts::Failure(error(7))),
        Err(JsonRPCError::ServerError { code: 7, .. })
    ));
}
