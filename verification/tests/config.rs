use rinha::config::{choose_listener, choose_port, choose_workers, split_upstreams, Listener};

#[test]
fn ports() {
    assert_eq!(choose_port(None, None), 9999);
    assert_eq!(choose_port(Some(b"8080"), Some(b"0.0.0.0:1")), 8080);
    assert_eq!(choose_port(Some(b"80x"), Some(b"0.0.0.0:1234")), 1234);
    assert_eq!(choose_port(None, Some(b"[::]:77")), 77);
    assert_eq!(choose_port(None, Some(b"77")), 77);
    assert_eq!(choose_port(None, Some(b"host:")), 9999);
    assert_eq!(choose_port(Some(b"65536"), None), 9999);
    assert_eq!(choose_port(Some(b"65535"), None), 65535);
    assert_eq!(choose_port(Some(b" 80"), None), 9999);
}

#[test]
fn workers() {
    assert_eq!(choose_workers(None), 2);
    assert_eq!(choose_workers(Some(b"7")), 7);
    assert_eq!(choose_workers(Some(b"many")), 2);
    assert_eq!(choose_workers(Some(b"0")), 0);
}

#[test]
fn upstreams() {
    let want: Vec<Vec<u8>> = vec![b"/run/a.sock".to_vec(), b"/run/b.sock".to_vec()];
    assert_eq!(split_upstreams(b"/run/a.sock,/run/b.sock"), want);
    assert_eq!(split_upstreams(b" /run/a.sock , ,, /run/b.sock,"), want);
    assert!(split_upstreams(b"").is_empty());
    assert!(split_upstreams(b" , ").is_empty());
}

#[test]
fn listeners() {
    assert_eq!(choose_listener(true, true), Listener::Handoff);
    assert_eq!(choose_listener(true, false), Listener::Handoff);
    assert_eq!(choose_listener(false, true), Listener::Unix);
    assert_eq!(choose_listener(false, false), Listener::Tcp);
}
