use anchor_tray_app::service::ServiceState;
use anchor_tray_app::ui::{menu_action, state_text, status_line, status_report, ui_url, MenuAction};

fn formatted_line(name: &str, state: ServiceState, restarts: u32, port: Option<u16>) -> String {
    format!("{:<22} {:?} restarts={} port={:?}", name, state, restarts, port)
}

#[test]
fn status_lines_match_the_report_format() {
    let cases = [
        ("anchor-backend", ServiceState::Running, 0u32, Some(3001u16)),
        ("anchor-security", ServiceState::Degraded, 12, None),
        ("a-service-with-a-very-long-name", ServiceState::Crashed, 4294967295, Some(0)),
        ("exactly-twenty-two-chr", ServiceState::Stopped, 1, Some(65535)),
        ("ünïcode", ServiceState::Starting, 3, Some(3004)),
    ];
    for (n, s, r, p) in cases {
        assert_eq!(status_line(&n.to_string(), s, r, p), formatted_line(n, s, r, p));
    }
    assert_eq!(status_line(&"x".to_string(), ServiceState::Running, 2, Some(3001)), "x                      Running restarts=2 port=Some(3001)");
}

#[test]
fn state_names_match_debug() {
    for s in [ServiceState::Stopped, ServiceState::Starting, ServiceState::Running, ServiceState::Crashed, ServiceState::Degraded] {
        assert_eq!(state_text(s), format!("{:?}", s));
    }
}

#[test]
fn status_report_lists_lines_under_a_title() {
    let snap = vec![
        ("a".to_string(), ServiceState::Running, 0, Some(1)),
        ("b".to_string(), ServiceState::Stopped, 1, None),
    ];
    let expected = format!("[Anchor Status]\n{}\n{}", formatted_line("a", ServiceState::Running, 0, Some(1)), formatted_line("b", ServiceState::Stopped, 1, None));
    assert_eq!(status_report(&snap), expected);
    assert_eq!(status_report(&vec![]), "[Anchor Status]\n");
}

#[test]
fn ui_address() {
    assert_eq!(ui_url(3001), "http://localhost:3001");
    assert_eq!(ui_url(0), "http://localhost:0");
}

#[test]
fn menu_entries() {
    assert_eq!(menu_action(&"open_ui".to_string()), MenuAction::OpenUi);
    assert_eq!(menu_action(&"status".to_string()), MenuAction::Status);
    assert_eq!(menu_action(&"restart_all".to_string()), MenuAction::RestartAll);
    assert_eq!(menu_action(&"logs".to_string()), MenuAction::OpenLogs);
    assert_eq!(menu_action(&"quit".to_string()), MenuAction::Quit);
    assert_eq!(menu_action(&"Quit".to_string()), MenuAction::Nothing);
}
