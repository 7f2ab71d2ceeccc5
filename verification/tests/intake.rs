use pbft::client_request_handler::ClientRequestHandler;
use pbft::message::Request;
use pbft::protocol_config::{Name, PbftProtocolConfig};

#[test]
fn intake_queue_is_fifo() {
    let mut handler = ClientRequestHandler::new(8000);
    assert_eq!(handler.port(), 8000);
    assert!(handler.pop_request().is_none());
    handler.push_request(Request::new(b"a".to_vec(), 1, b"C".to_vec()));
    handler.push_request(Request::new(b"b".to_vec(), 2, b"C".to_vec()));
    let first = handler.pop_request().unwrap();
    assert_eq!(first.operation, b"a".to_vec());
    let second = handler.pop_request().unwrap();
    assert_eq!(second.operation, b"b".to_vec());
    assert!(handler.pop_request().is_none());
}

#[test]
fn protocol_name_is_fixed() {
    let name = Name;
    assert_eq!(name.protocol_name(), "/ackintosh/pbft/1.0.0");
    let config = PbftProtocolConfig;
    let offered = config.protocol_info();
    assert_eq!(offered.protocol_name(), "/ackintosh/pbft/1.0.0");
}
