use nomadnet::config::{parse_bool, ConfigError, InterfaceType, RnsConfig};

#[test]
fn parse_tcp_client_interface() {
    let config = r#"
[reticulum]

[[RNS Testnet Amsterdam]]
  type = TCPClientInterface
  target_host = amsterdam.reticulum.network
  target_port = 4985
"#;
    let parsed = RnsConfig::parse(config).unwrap();
    assert_eq!(parsed.interfaces.len(), 1);
    let iface = &parsed.interfaces[0];
    assert_eq!(iface.name, "RNS Testnet Amsterdam");
    assert!(iface.enabled);
    match &iface.iface_type {
        InterfaceType::TcpClient {
            target_host,
            target_port,
        } => {
            assert_eq!(target_host, "amsterdam.reticulum.network");
            assert_eq!(*target_port, 4985);
        }
        _ => panic!("expected TcpClient"),
    }
}

#[test]
fn parse_tcp_server_with_custom_port() {
    let config = r#"
[[My Server]]
  type = TCPServerInterface
  listen_port = 4321
"#;
    let parsed = RnsConfig::parse(config).unwrap();
    assert_eq!(parsed.interfaces.len(), 1);
    match &parsed.interfaces[0].iface_type {
        InterfaceType::TcpServer { listen_port } => assert_eq!(*listen_port, 4321),
        _ => panic!("expected TcpServer"),
    }
}

#[test]
fn parse_udp_interface() {
    let config = r#"
[[Local UDP]]
  type = UDPInterface
  listen_addr = 0.0.0.0:4242
"#;
    let parsed = RnsConfig::parse(config).unwrap();
    assert_eq!(parsed.interfaces.len(), 1);
    match &parsed.interfaces[0].iface_type {
        InterfaceType::Udp { bind_addr } => assert_eq!(bind_addr, "0.0.0.0:4242"),
        _ => panic!("expected UDP"),
    }
}

#[test]
fn disabled_interface_skipped() {
    let config = r#"
[[Disabled Iface]]
  type = TCPClientInterface
  target_host = example.com
  target_port = 1234
  interface_enabled = no
"#;
    let parsed = RnsConfig::parse(config).unwrap();
    assert_eq!(parsed.interfaces.len(), 1);
    assert!(!parsed.interfaces[0].enabled);
}

#[test]
fn enable_transport_parsed() {
    let config = r#"
[reticulum]
  enable_transport = true
"#;
    let parsed = RnsConfig::parse(config).unwrap();
    assert!(parsed.enable_transport);
}

#[test]
fn comments_and_empty_lines_ignored() {
    let config = r#"
# This is a comment
  # Indented comment

[[Test]]
  type = UDPInterface
"#;
    let parsed = RnsConfig::parse(config).unwrap();
    assert_eq!(parsed.interfaces.len(), 1);
}

#[test]
fn unknown_type_is_skipped() {
    let config = r#"
[[Bad]]
  type = FakeInterface
"#;
    let parsed = RnsConfig::parse(config).unwrap();
    assert_eq!(parsed.interfaces.len(), 0);
}

#[test]
fn missing_type_is_skipped() {
    let config = r#"
[[NoType]]
  target_host = example.com
"#;
    let parsed = RnsConfig::parse(config).unwrap();
    assert_eq!(parsed.interfaces.len(), 0);
}

#[test]
fn parse_bool_words() {
    assert!(parse_bool("TRUE"));
    assert!(parse_bool("Yes"));
    assert!(parse_bool("1"));
    assert!(parse_bool("on"));
    assert!(!parse_bool("off"));
    assert!(!parse_bool(" true"));
}

#[test]
fn several_interfaces_and_defaults() {
    let config = "[reticulum]\nenable_transport = Off\n[interfaces]\n[[A]]\ninterface_type = TCPServerInterface\nlisten_port = 99999\nenabled = false\n[[B]]\ntype = UDPInterface\nbind_addr = 1.2.3.4:5\n[[C]]\ntype = TCPClientInterface\ntarget_host = h\n[[D]]\ntype=TCPClientInterface\ntarget_host=x\ntarget_port=+7\n";
    let parsed = RnsConfig::parse(config).unwrap();
    assert!(!parsed.enable_transport);
    assert_eq!(parsed.interfaces.len(), 3);
    assert_eq!(parsed.interfaces[0].name, "A");
    assert!(!parsed.interfaces[0].enabled);
    match &parsed.interfaces[0].iface_type {
        InterfaceType::TcpServer { listen_port } => assert_eq!(*listen_port, 4242),
        _ => panic!("expected TcpServer"),
    }
    match &parsed.interfaces[1].iface_type {
        InterfaceType::Udp { bind_addr } => assert_eq!(bind_addr, "1.2.3.4:5"),
        _ => panic!("expected UDP"),
    }
    assert_eq!(parsed.interfaces[2].name, "D");
    match &parsed.interfaces[2].iface_type {
        InterfaceType::TcpClient { target_host, target_port } => {
            assert_eq!(target_host, "x");
            assert_eq!(*target_port, 7);
        }
        _ => panic!("expected TcpClient"),
    }
}

#[test]
fn transport_switch_only_in_reticulum_section() {
    let parsed = RnsConfig::parse("[other]\nenable_transport = yes\n").unwrap();
    assert!(!parsed.enable_transport);
    let parsed = RnsConfig::parse("[reticulum]\r\n  enable_transport = yes\r\n").unwrap();
    assert!(parsed.enable_transport);
}

#[test]
fn config_error_messages() {
    assert_eq!(
        ConfigError::MissingField("Radio".to_string(), "type").message(),
        "Missing field type in interface Radio"
    );
    assert_eq!(
        ConfigError::UnknownInterfaceType("Radio".to_string(), "Foo".to_string()).message(),
        "Unknown interface type Foo in interface Radio"
    );
    let io = std::io::Error::new(std::io::ErrorKind::NotFound, "gone");
    assert_eq!(ConfigError::Io("/etc/cfg".to_string(), io).message(), "IO error reading /etc/cfg: gone");
}
