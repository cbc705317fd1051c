use uscope::cpu::types::RetireStatus;
use uscope::report::{contains_text, field_type_name, parse_range, retire_status_str, role_name};
use uscope::rpc::{error_code, find_tool, handle_request, number_parameter, Answer, Tool};
use uscope::types::FieldType;

#[test]
fn names_of_types_roles_and_statuses() {
    assert_eq!(field_type_name(FieldType::U8.code()), "u8");
    assert_eq!(field_type_name(FieldType::I64.code()), "i64");
    assert_eq!(field_type_name(FieldType::StringRef.code()), "string_ref");
    assert_eq!(field_type_name(0xAB), "unknown(0xab)");
    assert_eq!(uscope::rpc::field_type_name(FieldType::Bool.code()), "bool");
    assert_eq!(uscope::rpc::field_type_name(0xAB), "unknown");
    assert_eq!(role_name(0), "plain");
    assert_eq!(role_name(1), "HEAD_PTR");
    assert_eq!(role_name(2), "TAIL_PTR");
    assert_eq!(role_name(3), "plain");
    assert_eq!(retire_status_str(&RetireStatus::Retired), "retired");
    assert_eq!(retire_status_str(&RetireStatus::Flushed), "flushed");
    assert_eq!(retire_status_str(&RetireStatus::InFlight), "in_flight");
}

#[test]
fn ranges_are_two_numbers() {
    assert_eq!(parse_range("0:100"), Some((0, 100)));
    assert_eq!(parse_range("7:3"), Some((7, 3)));
    assert_eq!(parse_range("+5:4294967295"), Some((5, u32::MAX)));
    assert_eq!(parse_range("5"), None);
    assert_eq!(parse_range("1:2:3"), None);
    assert_eq!(parse_range(":3"), None);
    assert_eq!(parse_range("1:"), None);
    assert_eq!(parse_range("1: 2"), None);
    assert_eq!(parse_range("0:4294967296"), None);
    assert_eq!(parse_range("a:b"), None);
}

#[test]
fn parts_of_texts() {
    assert!(contains_text("committed_insns", "ted_"));
    assert!(contains_text("committed_insns", ""));
    assert!(contains_text("", ""));
    assert!(contains_text("aab", "ab"));
    assert!(!contains_text("ab", "abc"));
    assert!(!contains_text("abab", "ba b"));
}

#[test]
fn requests_are_answered() {
    assert_eq!(handle_request("2.0", "initialize", true, ""), Answer::Capabilities);
    assert_eq!(handle_request("2.0", "notifications/initialized", false, ""), Answer::Nothing);
    assert_eq!(handle_request("2.0", "tools/list", true, ""), Answer::Tools);
    assert_eq!(
        handle_request("2.0", "tools/call", true, "counter_values"),
        Answer::Call(Tool::CounterValues)
    );
    assert_eq!(handle_request("2.0", "tools/call", true, "nothing"), Answer::UnknownTool);
    assert_eq!(handle_request("2.0", "shutdown", true, ""), Answer::UnknownMethod);
    assert_eq!(handle_request("2.0", "shutdown", false, ""), Answer::Nothing);
    assert_eq!(handle_request("1.0", "initialize", true, ""), Answer::WrongVersion);
    assert_eq!(error_code(Answer::WrongVersion), Some(-32600));
    assert_eq!(error_code(Answer::UnknownMethod), Some(-32601));
    assert_eq!(error_code(Answer::Nothing), None);
    assert_eq!(find_tool("file_info"), Some(Tool::FileInfo));
    assert_eq!(find_tool("state_at_cycle"), Some(Tool::StateAtCycle));
    assert_eq!(find_tool("entity_timeline"), Some(Tool::EntityTimeline));
    assert_eq!(find_tool("buffer_occupancy"), Some(Tool::BufferOccupancy));
    assert_eq!(find_tool("analyze_performance"), Some(Tool::AnalyzePerformance));
}

#[test]
fn parameters_are_cut_to_32_bits() {
    assert_eq!(number_parameter("cycle", Some(7)), Ok(7));
    assert_eq!(number_parameter("cycle", Some(0x1_0000_0005)), Ok(5));
    assert_eq!(
        number_parameter("cycle", None),
        Err("missing or invalid 'cycle' parameter".to_string())
    );
}
