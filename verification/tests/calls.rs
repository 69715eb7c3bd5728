//! The invoke-call argument decoder on real serialized bytes.

use data_service_consumer::function_call::FunctionCall;
use data_service_consumer::models::DataEntryTypeValue;

#[test]
fn test_parse() {
    let raw = [
        1, 9, 1, 0, 0, 0, 20, 102, 105, 110, 97, 108, 105, 122, 101, 67, 117, 114, 114, 101, 110,
        116, 80, 114, 105, 99, 101, 0, 0, 0, 10, 0, 0, 0, 0, 0, 0, 57, 251, 192, 1, 0, 0, 0, 64,
        192, 20, 166, 214, 231, 36, 186, 77, 93, 121, 118, 144, 235, 49, 224, 138, 218, 92, 126,
        205, 36, 135, 156, 162, 234, 108, 143, 39, 31, 166, 16, 197, 194, 24, 56, 237, 189, 178,
        63, 79, 190, 233, 133, 128, 215, 36, 181, 83, 156, 121, 39, 65, 187, 99, 119, 210, 56,
        140, 61, 237, 53, 115, 139, 4, 0, 0, 0, 0, 0, 0, 57, 251, 192, 1, 0, 0, 0, 64, 176, 95,
        123, 159, 70, 125, 221, 243, 203, 47, 239, 127, 247, 163, 213, 3, 183, 226, 123, 127, 136,
        211, 17, 193, 143, 202, 99, 164, 132, 248, 230, 59, 113, 167, 30, 73, 49, 102, 35, 167,
        79, 134, 118, 29, 75, 104, 72, 167, 89, 56, 183, 116, 159, 204, 143, 48, 242, 52, 108, 84,
        191, 201, 28, 1, 0, 0, 0, 0, 0, 0, 57, 251, 192, 1, 0, 0, 0, 64, 57, 204, 15, 37, 179,
        210, 188, 201, 109, 6, 203, 251, 163, 17, 59, 75, 184, 31, 181, 245, 160, 232, 134, 108,
        36, 158, 249, 30, 44, 30, 166, 85, 204, 19, 135, 153, 33, 173, 110, 109, 49, 160, 104,
        143, 91, 45, 6, 235, 9, 100, 130, 227, 158, 23, 35, 15, 112, 160, 160, 117, 108, 158, 226,
        2, 0, 0, 0, 0, 0, 0, 57, 251, 192, 1, 0, 0, 0, 64, 89, 30, 225, 143, 109, 36, 119, 51,
        194, 86, 153, 109, 143, 235, 253, 42, 230, 245, 89, 239, 249, 200, 40, 26, 122, 62, 62,
        197, 116, 80, 161, 168, 148, 85, 54, 191, 81, 50, 143, 70, 104, 23, 12, 88, 95, 3, 155,
        28, 173, 191, 4, 98, 106, 27, 169, 44, 138, 102, 232, 48, 11, 86, 79, 4, 0, 0, 0, 0, 0, 0,
        57, 251, 192, 1, 0, 0, 0, 64, 101, 119, 152, 204, 91, 239, 162, 122, 199, 126, 117, 226,
        150, 0, 28, 86, 112, 115, 73, 111, 19, 133, 173, 203, 247, 143, 19, 217, 36, 195, 20, 213,
        166, 179, 225, 76, 13, 230, 77, 97, 215, 130, 85, 72, 138, 17, 160, 22, 85, 48, 51, 98,
        16, 251, 228, 12, 64, 47, 204, 176, 137, 172, 194, 4,
    ];
    let fc = FunctionCall::from_raw_bytes(&raw).unwrap();
    assert_eq!(fc.name, "finalizeCurrentPrice");
    assert_eq!(fc.args.len(), 10);
    assert!(matches!(fc.args[0], DataEntryTypeValue::Integer(3_800_000)));
    match &fc.args[1] {
        DataEntryTypeValue::Binary(s) => assert!(s.starts_with("base64:")),
        other => panic!("unexpected argument decoding: {:?}", arg_tag(other)),
    }
}

fn arg_tag(a: &DataEntryTypeValue) -> &'static str {
    match a {
        DataEntryTypeValue::Binary(_) => "binary",
        DataEntryTypeValue::Boolean(_) => "boolean",
        DataEntryTypeValue::Integer(_) => "integer",
        DataEntryTypeValue::StringVal(_) => "string",
        DataEntryTypeValue::List(_) => "list",
    }
}

#[test]
fn small_calls_decode_exactly() {
    // version 1, markers, name "f", two arguments: true and the string "hi"
    let raw = [
        1u8, 9, 1, 0, 0, 0, 1, b'f', 0, 0, 0, 2, 6, 2, 0, 0, 0, 2, b'h', b'i',
    ];
    let fc = FunctionCall::from_raw_bytes(&raw).unwrap();
    assert_eq!(fc.name, "f");
    assert_eq!(fc.args.len(), 2);
    assert!(matches!(fc.args[0], DataEntryTypeValue::Boolean(true)));
    match &fc.args[1] {
        DataEntryTypeValue::StringVal(s) => assert_eq!(s, "hi"),
        _ => panic!("second argument must be a string"),
    }
}

#[test]
fn malformed_calls_are_refused() {
    assert!(FunctionCall::from_raw_bytes(&[]).is_err());
    // wrong marker bytes
    assert!(FunctionCall::from_raw_bytes(&[1, 8, 1, 0, 0, 0, 0, 0, 0, 0, 0]).is_err());
    // an argument list that claims more than the bytes hold
    assert!(FunctionCall::from_raw_bytes(&[1, 9, 1, 0, 0, 0, 1, b'f', 0, 0, 0, 2, 6]).is_err());
    // an unsupported argument tag
    assert!(
        FunctionCall::from_raw_bytes(&[1, 9, 1, 0, 0, 0, 1, b'f', 0, 0, 0, 1, 11]).is_err()
    );
}
