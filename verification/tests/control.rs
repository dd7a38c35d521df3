use little_raft::control::{read_control_file, ControlRead};
use little_raft::control::{
    is_valid_control_command, is_valid_control_line, parse_control_line, parse_control_message,
    ControlMessage,
};

#[test]
fn parse_control_line_reads_index_and_command() {
    assert_eq!(parse_control_line("5: Down //"), (5, String::from("Down")));
    assert_eq!(parse_control_line("1: Up //"), (1, String::from("Up")));
    assert_eq!(parse_control_line("2: Apply -11//"), (2, String::from("Apply-11")));
}

#[test]
fn parse_control_line_stops_at_the_next_colon() {
    assert_eq!(parse_control_line("3:Up:Down"), (3, String::from("Up")));
    assert_eq!(parse_control_line("7:"), (7, String::new()));
    assert_eq!(parse_control_line("+12: a/ b"), (12, String::from("ab")));
}

#[test]
fn control_line_needs_a_colon_and_an_index() {
    assert!(is_valid_control_line("5: Down //"));
    assert!(!is_valid_control_line("5 Down //"));
    assert!(!is_valid_control_line(" 5: Down //"));
    assert!(!is_valid_control_line(": Down //"));
    assert!(!is_valid_control_line("-1: Down //"));
    assert!(!is_valid_control_line("+: Down //"));
    assert!(!is_valid_control_line("99999999999999999999999: Up"));
    assert!(is_valid_control_line("0018446744073709551615: Up"));
}

#[test]
fn parse_control_message_reads_commands() {
    assert_eq!(parse_control_message("Up"), Some(ControlMessage::Up));
    assert_eq!(parse_control_message("Down"), Some(ControlMessage::Down));
    assert_eq!(parse_control_message("Apply-11"), Some(ControlMessage::Apply(-11)));
    assert_eq!(parse_control_message("Apply+7"), Some(ControlMessage::Apply(7)));
    assert_eq!(parse_control_message("Apply2147483647"), Some(ControlMessage::Apply(2147483647)));
    assert_eq!(parse_control_message("Apply-2147483648"), Some(ControlMessage::Apply(-2147483648)));
    assert_eq!(parse_control_message("xApply3Apply4"), Some(ControlMessage::Apply(3)));
    assert_eq!(parse_control_message("Sideways"), None);
    assert_eq!(parse_control_message("up"), None);
    assert_eq!(parse_control_message(""), None);
}

#[test]
fn apply_needs_an_i32() {
    assert!(is_valid_control_command("Apply-11"));
    assert!(is_valid_control_command("Down"));
    assert!(is_valid_control_command("anything"));
    assert!(!is_valid_control_command("Apply"));
    assert!(!is_valid_control_command("Apply-"));
    assert!(!is_valid_control_command("Apply2147483648"));
    assert!(!is_valid_control_command("Apply-2147483649"));
    assert!(!is_valid_control_command("Apply1x"));
}

#[test]
fn complete_control_lines_hold_a_double_slash() {
    assert!(little_raft::control::is_complete_control_line("5: Down //"));
    assert!(little_raft::control::is_complete_control_line("2: Apply -11//"));
    assert!(!little_raft::control::is_complete_control_line("5: Down /"));
    assert!(!little_raft::control::is_complete_control_line(""));
}

#[test]
fn control_file_is_read_one_complete_line_at_a_time() {
    let text = "5: Down //\n1: Up //\n2: Apply -11//\n3: Apply";
    assert_eq!(read_control_file(text, 0), ControlRead::Read { id: 5, message: Some(ControlMessage::Down) });
    assert_eq!(read_control_file(text, 1), ControlRead::Read { id: 1, message: Some(ControlMessage::Up) });
    assert_eq!(read_control_file(text, 2), ControlRead::Read { id: 2, message: Some(ControlMessage::Apply(-11)) });
    // The last line holds no `//` yet, and there is no fifth line.
    assert_eq!(read_control_file(text, 3), ControlRead::Wait);
    assert_eq!(read_control_file(text, 4), ControlRead::Wait);
    assert_eq!(read_control_file("", 0), ControlRead::Wait);
}

#[test]
fn control_file_reports_bad_lines() {
    assert_eq!(read_control_file("x: Down //", 0), ControlRead::BadIndex);
    assert_eq!(read_control_file("2: Apply 1x //", 0), ControlRead::BadCommand);
    assert_eq!(read_control_file("2: Sleep //", 0), ControlRead::Read { id: 2, message: None });
    assert_eq!(read_control_file("a\n\n4: Up //\n", 2), ControlRead::Read { id: 4, message: Some(ControlMessage::Up) });
}
