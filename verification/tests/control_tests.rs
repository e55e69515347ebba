use saved_core::account::AccountKeys;
use saved_core::control::{message_id_debug, process_request_at, DaemonAccount, FileAction};
use saved_core::crypto::DeviceKey;
use saved_core::daemon::{DaemonRequest, DaemonResponse};
use saved_core::ids::MessageId;

fn account() -> DaemonAccount {
    DaemonAccount::new(DeviceKey::generate(), AccountKeys::new(), [3u8; 32])
}

fn id_text(bytes: &[u8; 32]) -> String {
    let parts: Vec<String> = bytes.iter().map(|b| b.to_string()).collect();
    format!("[{}]", parts.join(", "))
}

#[test]
fn message_id_debug_matches_derived_debug() {
    let mut bytes = [0u8; 32];
    for (i, b) in bytes.iter_mut().enumerate() {
        *b = (i as u8).wrapping_mul(37);
    }
    let id = MessageId(bytes);
    assert_eq!(message_id_debug(&id), format!("{:?}", id));
}

#[test]
fn send_edit_delete_and_list_messages() {
    let mut a = account();
    let (r, act) = process_request_at(&mut a, DaemonRequest::MessageSend { content: "hello".to_string(), attachments: Vec::new() }, 1_700_000_000_000);
    assert!(act.is_none());
    let sent = match r {
        DaemonResponse::MessageSent { message_id } => message_id,
        other => panic!("unexpected {:?}", other),
    };
    let listed = match process_request_at(&mut a, DaemonRequest::MessageList, 0).0 {
        DaemonResponse::MessageList(v) => v,
        other => panic!("unexpected {:?}", other),
    };
    assert_eq!(listed.len(), 1);
    assert_eq!(listed[0].id, sent);
    assert_eq!(listed[0].content, "hello");
    assert_eq!(listed[0].created_at, "2023-11-14 22:13:20 UTC");
    let id = a.sync.get_all_messages()[0].id;
    let text = id_text(&id.0);
    match process_request_at(&mut a, DaemonRequest::MessageEdit { message_id: text.clone(), new_content: "edited".to_string() }, 1).0 {
        DaemonResponse::MessageEdited { message_id } => assert_eq!(message_id, text),
        other => panic!("unexpected {:?}", other),
    }
    assert_eq!(a.sync.get_all_messages()[0].content, "edited");
    assert!(matches!(process_request_at(&mut a, DaemonRequest::MessageDelete { message_id: text }, 2).0, DaemonResponse::Success));
    assert_eq!(a.sync.get_all_messages().len(), 0);
}

#[test]
fn bad_message_id_is_refused() {
    let mut a = account();
    match process_request_at(&mut a, DaemonRequest::MessageEdit { message_id: "1, 2, 3".to_string(), new_content: "x".to_string() }, 0).0 {
        DaemonResponse::Error(e) => assert_eq!(e, "Invalid message ID format"),
        other => panic!("unexpected {:?}", other),
    }
}

#[test]
fn status_counts_and_fixed_answers() {
    let mut a = account();
    match process_request_at(&mut a, DaemonRequest::Status, 0).0 {
        DaemonResponse::Status { device_id, device_name, authorized, last_seen, connected_peers, discovered_peers, total_messages, total_devices } => {
            assert_eq!(device_id, "local-device");
            assert_eq!(device_name, "Local Device");
            assert!(authorized);
            assert_eq!(last_seen, "1970-01-01 00:00:00 UTC");
            assert_eq!((connected_peers, discovered_peers, total_messages, total_devices), (0, 0, 0, 0));
        }
        other => panic!("unexpected {:?}", other),
    }
    match process_request_at(&mut a, DaemonRequest::NetworkAddresses, 0).0 {
        DaemonResponse::NetworkAddresses(v) => assert_eq!(v, vec!["Network addresses not available via public API".to_string()]),
        other => panic!("unexpected {:?}", other),
    }
    assert!(matches!(process_request_at(&mut a, DaemonRequest::NetworkStop, 0).0, DaemonResponse::Success));
}

#[test]
fn file_work_is_handed_back() {
    let mut a = account();
    let (_, act) = process_request_at(&mut a, DaemonRequest::DeviceAccept { qr_payload: "{}".to_string() }, 0);
    assert!(matches!(act, Some(FileAction::DecodeQr(t)) if t == "{}"));
    let (_, act) = process_request_at(&mut a, DaemonRequest::AccountImport { input_path: "in.json".to_string() }, 0);
    assert!(matches!(act, Some(FileAction::ReadImport { input_path }) if input_path == "in.json"));
    let (r, act) = process_request_at(&mut a, DaemonRequest::AttachmentDownload { attachment_id: 7, output_path: "out".to_string() }, 0);
    assert!(act.is_none());
    assert!(matches!(r, DaemonResponse::Error(e) if e == "Attachment not found"));
    let (_, act) = process_request_at(&mut a, DaemonRequest::MessageSend { content: "c".to_string(), attachments: vec!["f.txt".to_string()] }, 0);
    assert!(matches!(act, Some(FileAction::StoreFiles { paths, .. }) if paths == vec!["f.txt".to_string()]));
    assert_eq!(a.sync.get_all_messages().len(), 0);
}

#[test]
fn connecting_a_peer_is_reported() {
    let mut a = account();
    let r = process_request_at(&mut a, DaemonRequest::PeerConnect { device_id: "test-peer-1".to_string(), addresses: vec!["/ip4/127.0.0.1/tcp/8080".to_string()] }, 5).0;
    assert!(matches!(r, DaemonResponse::Success));
    match process_request_at(&mut a, DaemonRequest::PeerList, 5).0 {
        DaemonResponse::PeerList { connected, discovered } => {
            assert_eq!(connected.len(), 1);
            assert_eq!(connected[0].device_id, "test-peer-1");
            assert_eq!(connected[0].connection_state.as_deref(), Some("Connected"));
            assert_eq!(discovered.len(), 1);
            assert_eq!(discovered[0].service_type, "\"_saved._tcp\"");
        }
        other => panic!("unexpected {:?}", other),
    }
}

#[test]
fn debug_text_of_id_bytes_parses_back() {
    let mut bytes = [0u8; 32];
    for (i, b) in bytes.iter_mut().enumerate() {
        *b = (255 - i * 7) as u8;
    }
    let text = format!("{:?}", bytes);
    assert_eq!(saved_core::daemon::parse_message_id(&text).unwrap(), MessageId(bytes));
}

#[test]
fn bare_byte_list_parses_back() {
    let bytes: [u8; 32] = core::array::from_fn(|i| (i as u8) * 8);
    let parts: Vec<String> = bytes.iter().map(|b| b.to_string()).collect();
    let text = parts.join(", ");
    assert_eq!(saved_core::daemon::parse_message_id(&text).unwrap(), MessageId(bytes));
}

#[test]
fn daemon_edit_is_logged_as_an_operation() {
    let mut a = account();
    process_request_at(&mut a, DaemonRequest::MessageSend { content: "one".to_string(), attachments: Vec::new() }, 10);
    assert_eq!(a.sync.event_log().get_all_operations().len(), 1);
    let id = a.sync.get_all_messages()[0].id;
    let text = id_text(&id.0);
    process_request_at(&mut a, DaemonRequest::MessageEdit { message_id: text.clone(), new_content: "two".to_string() }, 20);
    assert_eq!(a.sync.event_log().get_all_operations().len(), 2);
    assert_eq!(a.sync.get_sync_heads().len(), 1);
    process_request_at(&mut a, DaemonRequest::MessagePurge { message_id: text }, 30);
    assert_eq!(a.sync.event_log().get_all_operations().len(), 3);
}

#[test]
fn failed_connection_reads_as_a_network_error() {
    let mut a = account();
    match process_request_at(&mut a, DaemonRequest::PeerConnect { device_id: "fail-peer-1".to_string(), addresses: Vec::new() }, 5).0 {
        DaemonResponse::Error(e) => assert_eq!(e, "Failed to connect to peer: Network error: Simulated connection failure"),
        other => panic!("unexpected {:?}", other),
    }
}

#[test]
fn scan_reports_what_it_found() {
    let mut a = account();
    let n = match process_request_at(&mut a, DaemonRequest::PeerScan, 5).0 {
        DaemonResponse::NetworkScanned { discovered_count } => discovered_count,
        other => panic!("unexpected {:?}", other),
    };
    assert!(n <= 8);
    match process_request_at(&mut a, DaemonRequest::PeerList, 5).0 {
        DaemonResponse::PeerList { connected, discovered } => {
            assert!(connected.is_empty());
            assert!(discovered.len() <= n);
            assert_eq!(discovered.is_empty(), n == 0);
        }
        other => panic!("unexpected {:?}", other),
    }
}
