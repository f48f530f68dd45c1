use y4_clipboard::constants::{log_protocol_bound, log_restore, log_save, log_seat_detected, socket_path_for_uid};
use y4_clipboard::ipc::{exit_request, parse_request, restore_request, IpcRequest};
use y4_clipboard::session::{capability_names, GlobalAction, RegistryState, SelectionGate};

#[test]
fn restore_request_round_trips() {
    for id in [0i64, 7, 42, -5, i64::MAX, i64::MIN] {
        let m = restore_request(id);
        assert!(matches!(parse_request(&m), IpcRequest::Restore { id: got } if got == id));
    }
    assert_eq!(restore_request(42), vec![0x01, b'4', b'2', b'\n']);
}

#[test]
fn parse_request_cases() {
    assert!(matches!(parse_request(&[0x01, b' ', b'1', b'7', b' ', b'\n']), IpcRequest::Restore { id: 17 }));
    assert!(matches!(parse_request(&[0x01, b'+', b'3', b'\n']), IpcRequest::Restore { id: 3 }));
    assert!(matches!(parse_request(&[0x01, b'x', b'\n']), IpcRequest::Ignored));
    assert!(matches!(parse_request(&[0x01, b'-', b'\n']), IpcRequest::Ignored));
    assert!(matches!(parse_request(b"\x019223372036854775808\n"), IpcRequest::Ignored));
    assert!(matches!(parse_request(&[0x02, b'\n']), IpcRequest::Exit));
    assert!(matches!(parse_request(&[0x07, b'\n']), IpcRequest::Ignored));
    assert!(matches!(parse_request(&[0x01]), IpcRequest::Ignored));
    assert!(matches!(parse_request(&[]), IpcRequest::Ignored));
}

#[test]
fn exit_request_alone_is_ignored() {
    let m = exit_request();
    assert_eq!(m, vec![0x02]);
    assert!(matches!(parse_request(&m), IpcRequest::Ignored));
}

#[test]
fn log_lines() {
    assert_eq!(log_save("text/plain", 12), "info: saved: text/plain (12 bytes)");
    assert_eq!(log_restore(7), "info: restored ID [7] to clipboard");
    assert_eq!(log_seat_detected("seat0", "identified"), "info: wayland seat detected: seat0 (capabilities: identified)");
    assert_eq!(log_protocol_bound("wl_seat"), "info: bound to wayland interface: wl_seat");
}

#[test]
fn socket_path() {
    assert_eq!(socket_path_for_uid(1000), "/tmp/y1-clipboard.1000.sock");
    assert_eq!(socket_path_for_uid(0), "/tmp/y1-clipboard.0.sock");
}

#[test]
fn registry_binds_and_drops() {
    let mut r = RegistryState::new();
    assert!(matches!(r.on_global(3, "ext_data_control_manager_v1", 1), GlobalAction::BindManager { name: 3 }));
    assert!(matches!(r.on_global(4, "ext_data_control_manager_v1", 0), GlobalAction::Ignore));
    assert!(matches!(r.on_global(5, "wl_seat", 9), GlobalAction::BindSeat { name: 5, version: 7 }));
    assert!(matches!(r.on_global(6, "wl_seat", 5), GlobalAction::Ignore));
    assert!(matches!(r.on_global(7, "wl_output", 4), GlobalAction::Ignore));
    assert!(r.can_create_device());
    r.device_created();
    let e = r.on_global_remove(5);
    assert!(e.drop_seat && !e.drop_manager);
    assert!(r.seat_id.is_none() && !r.has_device && r.manager_id == Some(3));
    assert!(!r.can_create_device());
    assert!(matches!(r.on_global(8, "wl_seat", 3), GlobalAction::BindSeat { name: 8, version: 3 }));
}

#[test]
fn own_offer_is_not_stored() {
    let mut g = SelectionGate::new();
    assert!(g.on_selection());
    g.note_own_offer();
    g.note_own_offer();
    assert!(!g.on_selection());
    assert!(!g.on_selection());
    assert!(g.on_selection());
    assert_eq!(g.provider_locks, 0);
}

#[test]
fn capabilities_text() {
    assert_eq!(capability_names(true, true, true), "pointer, keyboard, touch");
    assert_eq!(capability_names(false, true, true), "keyboard, touch");
    assert_eq!(capability_names(true, false, false), "pointer");
    assert_eq!(capability_names(false, false, false), "");
}
