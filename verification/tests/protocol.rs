use vpncore::protocol::{decode_config, encode_config, Connection, NetworkConfig, ProtocolError};

fn sample() -> NetworkConfig {
    NetworkConfig {
        client_ip: 0x0A000002,  // 10.0.0.2
        server_ip: 0x0A000001,  // 10.0.0.1
        netmask: 0xFFFFFF00,    // 255.255.255.0
        mtu: 1400,
    }
}

#[test]
fn encoding_is_exactly_fourteen_bytes() {
    let bytes = encode_config(&sample());
    assert_eq!(bytes.len(), 14);
    assert_eq!(bytes.len(), NetworkConfig::BYTE_SIZE);
}

#[test]
fn encoding_layout() {
    let bytes = encode_config(&sample());
    // addresses as big-endian octets, MTU little-endian: 1400 = 5 * 256 + 120
    assert_eq!(
        bytes,
        vec![10, 0, 0, 2, 10, 0, 0, 1, 255, 255, 255, 0, 120, 5]
    );
}

#[test]
fn config_round_trip() {
    let c = sample();
    assert_eq!(decode_config(&encode_config(&c)), Ok(c));
}

#[test]
fn config_round_trip_extremes() {
    let c = NetworkConfig { client_ip: u32::MAX, server_ip: 0, netmask: u32::MAX, mtu: u16::MAX };
    assert_eq!(decode_config(&encode_config(&c)), Ok(c));
}

#[test]
fn wrong_size_is_rejected() {
    assert_eq!(decode_config(&[0u8; 13]), Err(ProtocolError::ConfigSizeMismatch));
    assert_eq!(decode_config(&[0u8; 15]), Err(ProtocolError::ConfigSizeMismatch));
    assert_eq!(decode_config(&[]), Err(ProtocolError::ConfigSizeMismatch));
}

#[test]
fn connection_sends_config_raw() {
    let mut conn = Connection::new();
    conn.send_config(&sample());
    let wire = conn.take_output();
    // raw frame: no length prefix in front of the 14 bytes
    assert_eq!(wire, encode_config(&sample()));
}

#[test]
fn connection_receives_config() {
    let mut server = Connection::new();
    server.send_config(&sample());
    let wire = server.take_output();

    let mut client = Connection::new();
    client.feed(&wire);
    assert_eq!(client.receive_config(), Some(sample()));
}

#[test]
fn connection_waits_for_whole_config() {
    let wire = encode_config(&sample());
    let mut client = Connection::new();
    client.feed(&wire[..7]);
    assert_eq!(client.receive_config(), None);
    client.feed(&wire[7..]);
    assert_eq!(client.receive_config(), Some(sample()));
}

#[test]
fn into_parts_keeps_buffers() {
    let mut conn = Connection::new();
    conn.send_config(&sample());
    let extra = [3u8, 0, 7, 8, 9];
    conn.feed(&extra);
    let (mut sender, mut receiver) = conn.into_parts();
    assert_eq!(sender.take_output(), encode_config(&sample()));
    assert_eq!(receiver.try_receive(), Some(vec![7, 8, 9]));
}

#[test]
fn config_frame_precedes_packets() {
    // the first 14 bytes on the wire are config, framed packets follow
    let mut server = Connection::new();
    server.send_config(&sample());
    let (mut sender, _) = server.into_parts();
    sender.send(&[42]).unwrap();
    let wire = sender.take_output();

    let mut client = Connection::new();
    client.feed(&wire);
    assert_eq!(client.receive_config(), Some(sample()));
    let (_, mut receiver) = client.into_parts();
    assert_eq!(receiver.try_receive(), Some(vec![42]));
}
