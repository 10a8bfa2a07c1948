use wasm2map::json;
use wasm2map::vlq;

#[test]
fn uint_var_of_432_is_two_bytes() {
    assert_eq!(vlq::encode_uint_var(432), vec![176u8, 3]);
}

#[test]
fn uint_var_small_and_boundaries() {
    assert_eq!(vlq::encode_uint_var(0), vec![0u8]);
    assert_eq!(vlq::encode_uint_var(127), vec![127u8]);
    assert_eq!(vlq::encode_uint_var(128), vec![128u8, 1]);
    assert_eq!(vlq::encode_uint_var(u32::MAX), vec![255u8, 255, 255, 255, 15]);
}

#[test]
fn vlq_single_digits() {
    assert_eq!(vlq::encode(0), "A");
    assert_eq!(vlq::encode(1), "C");
    assert_eq!(vlq::encode(-1), "D");
    assert_eq!(vlq::encode(15), "e");
    assert_eq!(vlq::encode(-15), "f");
}

#[test]
fn vlq_multi_digits() {
    assert_eq!(vlq::encode(16), "gB");
    assert_eq!(vlq::encode(-16), "hB");
    assert_eq!(vlq::encode(432), "gb");
    assert_eq!(vlq::encode(1000), "w+B");
    assert_eq!(vlq::encode(123456789), "qxmvrH");
}

#[test]
fn vlq_round_trip_on_samples() {
    for x in [0i64, 1, -1, 31, -31, 32, 1023, -1024, 1 << 40, -(1 << 40), vlq::VLQ_MAX, -vlq::VLQ_MAX] {
        assert_eq!(vlq::decode(&vlq::encode(x)), Some(x));
    }
}

#[test]
fn vlq_decode_rejects_malformed_text() {
    assert_eq!(vlq::decode(""), None);
    assert_eq!(vlq::decode("g"), None);
    assert_eq!(vlq::decode("AA"), None);
    assert_eq!(vlq::decode("A*"), None);
    assert_eq!(vlq::decode("gggggggggggggB"), None);
    assert_eq!(vlq::decode("gb"), Some(432));
    assert_eq!(vlq::decode("D"), Some(-1));
}

#[test]
fn json_escapes_control_bytes() {
    let input: String = (0u8..32).map(|b| b as char).collect();
    let expected = "\\u0000\\u0001\\u0002\\u0003\\u0004\\u0005\\u0006\\u0007\\b\\t\\n\\u000b\\f\\r\\u000e\\u000f\\u0010\\u0011\\u0012\\u0013\\u0014\\u0015\\u0016\\u0017\\u0018\\u0019\\u001a\\u001b\\u001c\\u001d\\u001e\\u001f";
    assert_eq!(json::encode(&input), expected);
}

#[test]
fn json_escapes_only_quote_and_backslash() {
    assert_eq!(json::encode("$#\"\\^"), "$#\\\"\\\\^");
}

#[test]
fn json_leaves_plain_and_unicode_text() {
    assert_eq!(json::encode(""), "");
    assert_eq!(json::encode("fn main() { é }"), "fn main() { é }");
    assert_eq!(json::encode("a\u{7f}b"), "a\u{7f}b");
}
