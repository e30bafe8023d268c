use vpncore::config::{read_config, ClientConfig, ConfigError, Mode, ServerConfig, TlsConfig};

fn tls() -> TlsConfig {
    TlsConfig {
        root_certificate: String::from("root pem"),
        certificate: String::from("cert pem"),
        key: String::from("key pem"),
    }
}

fn client_section() -> ClientConfig {
    ClientConfig { address: String::from("vpn.example"), port: 4433 }
}

fn server_section() -> ServerConfig {
    ServerConfig { port: 4433, virtual_address: 0x0A000001, subnet_mask: 0xFFFFFF00 }
}

#[test]
fn client_section_selects_client_mode() {
    let config = read_config(Some(client_section()), None, tls()).unwrap();
    assert!(matches!(config.mode, Mode::Client(ref c) if c.port == 4433));
    assert_eq!(config.tls.key, "key pem");
}

#[test]
fn server_section_selects_server_mode() {
    let config = read_config(None, Some(server_section()), tls()).unwrap();
    assert!(
        matches!(config.mode, Mode::Server(ref s) if s.virtual_address == 0x0A000001 && s.subnet_mask == 0xFFFFFF00)
    );
}

#[test]
fn both_sections_are_rejected() {
    let r = read_config(Some(client_section()), Some(server_section()), tls());
    assert!(matches!(r, Err(ConfigError::BothSections)));
}

#[test]
fn neither_section_is_rejected() {
    let r = read_config(None, None, tls());
    assert!(matches!(r, Err(ConfigError::NoSection)));
}
