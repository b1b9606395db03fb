use nomadnet::config::RnsConfig;
use nomadnet::listing::{is_page_file, sorted_page_names};
use nomadnet::serve::{interface_plans, InterfacePlan};

#[test]
fn page_files_have_the_mu_extension() {
    assert!(is_page_file("index.mu"));
    assert!(is_page_file("NEWS.MU"));
    assert!(is_page_file("a.b.Mu"));
    assert!(is_page_file(".hidden.mu"));
    assert!(!is_page_file(".mu"));
    assert!(!is_page_file("mu"));
    assert!(!is_page_file("page.mux"));
    assert!(!is_page_file("page.m"));
    assert!(!is_page_file("page."));
    assert!(!is_page_file(".."));
    assert!(!is_page_file(""));
}

#[test]
fn page_names_are_sorted_with_forward_slashes() {
    let found = vec![
        "zeta.mu".to_string(),
        "sub\\b.mu".to_string(),
        "Alpha.mu".to_string(),
        "index.mu".to_string(),
        "sub/a.mu".to_string(),
    ];
    assert_eq!(
        sorted_page_names(&found),
        vec![
            "Alpha.mu".to_string(),
            "index.mu".to_string(),
            "sub/a.mu".to_string(),
            "sub/b.mu".to_string(),
            "zeta.mu".to_string(),
        ]
    );
    assert!(sorted_page_names(&[]).is_empty());
    let mut expected = vec!["é.mu".to_string(), "e.mu".to_string(), "ab.mu".to_string(), "a.mu".to_string()];
    let got = sorted_page_names(&expected);
    expected.sort();
    assert_eq!(got, expected);
}

#[test]
fn interface_plans_follow_the_configuration() {
    let config = "\
[[Client]]
  type = TCPClientInterface
  target_host = example.net
  target_port = 4965
[[Off]]
  type = TCPServerInterface
  enabled = no
[[Server]]
  type = TCPServerInterface
  listen_port = 4300
[[Radio]]
  type = UDPInterface
  listen_addr = 10.1.2.3:5000
[[Plain]]
  type = UDPInterface
";
    let parsed = RnsConfig::parse(config).unwrap();
    let plans = interface_plans(&parsed);
    assert_eq!(plans.len(), 4);
    match &plans[0] {
        InterfacePlan::TcpClient { name, target_host, target_port } => {
            assert_eq!(name, "Client");
            assert_eq!(target_host, "example.net");
            assert_eq!(*target_port, 4965);
        }
        _ => panic!("expected a TCP client"),
    }
    match &plans[1] {
        InterfacePlan::TcpServer { name, listen_ip, listen_port } => {
            assert_eq!(name, "Server");
            assert_eq!(listen_ip, "0.0.0.0");
            assert_eq!(*listen_port, 4300);
        }
        _ => panic!("expected a TCP server"),
    }
    match &plans[2] {
        InterfacePlan::Udp { name, listen_ip, listen_port, forward_ip, forward_port } => {
            assert_eq!(name, "Radio");
            assert_eq!(listen_ip, "10.1.2.3");
            assert_eq!(*listen_port, 5000);
            assert_eq!(forward_ip, "255.255.255.255");
            assert_eq!(*forward_port, 5000);
        }
        _ => panic!("expected a UDP interface"),
    }
    match &plans[3] {
        InterfacePlan::Udp { listen_ip, listen_port, .. } => {
            assert_eq!(listen_ip, "0.0.0.0");
            assert_eq!(*listen_port, 4242);
        }
        _ => panic!("expected a UDP interface"),
    }
}

#[test]
fn scan_pages_recurses_and_returns_relative_paths() {
    let files = ["index.mu", "README.txt", "guide.mu", "deep.mu"];
    let rel_paths = ["index.mu", "README.txt", "docs/guide.mu", "docs/sub/deep.mu"];
    let pages: Vec<String> = files
        .iter()
        .zip(rel_paths.iter())
        .filter(|(name, _)| is_page_file(name))
        .map(|(_, rel)| rel.to_string())
        .collect();
    let pages = sorted_page_names(&pages);
    assert!(pages.contains(&"index.mu".to_string()));
    assert!(pages.contains(&"docs/guide.mu".to_string()));
    assert!(pages.contains(&"docs/sub/deep.mu".to_string()));
    assert!(!pages.contains(&"README.txt".to_string()));
}
