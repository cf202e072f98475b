use zenoh_peer::params::{from_iter, get};
use zenoh_peer::tcp::{
    TcpConfigError, TcpConfigurator, TcpLinkConfig, TcpSettings, TcpSocketConfig, BIND_INTERFACE,
    TCP_RX_BUFFER_SIZE, TCP_TX_BUFFER_SIZE,
};

fn inspect(rx: Option<u32>, tx: Option<u32>) -> String {
    TcpConfigurator::default()
        .inspect_config(&TcpSettings { tcp_rx_buffer: rx, tcp_tx_buffer: tx })
        .unwrap()
}

#[test]
fn settings_become_parameters() {
    assert_eq!(inspect(None, None), "");
    assert_eq!(inspect(Some(65535), None), "rx_buffer_size=65535");
    assert_eq!(inspect(None, Some(0)), "tx_buffer_size=0");
    assert_eq!(inspect(Some(10), Some(4294967295)), "rx_buffer_size=10;tx_buffer_size=4294967295");
}

#[test]
fn settings_reach_the_link() {
    for rx in [None, Some(0), Some(7), Some(4294967295)] {
        for tx in [None, Some(1), Some(1000)] {
            let s = inspect(rx, tx);
            let c = TcpLinkConfig::new(&s).unwrap();
            assert_eq!(c.rx_buffer_size, rx);
            assert_eq!(c.tx_buffer_size, tx);
            assert_eq!(c.bind_iface, None);
        }
    }
}

#[test]
fn link_parameters_are_read() {
    let s = "iface=eth0;tx_buffer_size=+12;rx_buffer_size=0034;x";
    let c = TcpLinkConfig::new(s).unwrap();
    assert_eq!(c.bind_iface, Some("eth0"));
    assert_eq!(c.rx_buffer_size, Some(34));
    assert_eq!(c.tx_buffer_size, Some(12));
}

#[test]
fn wrong_sizes_are_refused() {
    for bad in ["", "+", "-1", " 1", "1 ", "1_0", "0x10", "4294967296", "abc"] {
        let rx = [TCP_RX_BUFFER_SIZE, "=", bad].concat();
        match TcpLinkConfig::new(&rx) {
            Err(TcpConfigError::UnknownRxBufferSize(v)) => assert_eq!(v, bad),
            _ => panic!("{} was taken for a size", bad),
        }
        let tx = [TCP_TX_BUFFER_SIZE, "=", bad].concat();
        match TcpLinkConfig::new(&tx) {
            Err(TcpConfigError::UnknownTxBufferSize(v)) => assert_eq!(v, bad),
            _ => panic!("{} was taken for a size", bad),
        }
    }
    let both = "tx_buffer_size=y;rx_buffer_size=x";
    let e = TcpLinkConfig::new(both).err().unwrap();
    assert!(matches!(e, TcpConfigError::UnknownRxBufferSize(_)));
    assert_eq!(e.message(), "Unknown TCP read buffer size argument: x");
    let e = TcpLinkConfig::new("tx_buffer_size=y").err().unwrap();
    assert_eq!(e.message(), "Unknown TCP write buffer size argument: y");
}

#[test]
fn parameters_are_found() {
    let s = "a=1;b=2;c=3|4|5;d=6";
    assert_eq!(get(s, "a"), Some("1"));
    assert_eq!(get(s, "c"), Some("3|4|5"));
    assert_eq!(get(s, "e"), None);
    assert_eq!(get("", "a"), None);
    assert_eq!(get("", ""), None);
    assert_eq!(get(";;a;;", "a"), Some(""));
    assert_eq!(get("a=b=c;a=d", "a"), Some("b=c"));
    assert_eq!(get("=x", ""), Some("x"));
    assert_eq!(get("clé=été;b=ß", "clé"), Some("été"));
    assert_eq!(get("clé=été;b=ß", "b"), Some("ß"));
}

#[test]
fn parameters_are_joined() {
    assert_eq!(from_iter(&vec![]), "");
    assert_eq!(from_iter(&vec![("a", "1"), ("b", ""), ("", "z"), ("c", "3|4")]), "a=1;b;c=3|4");
    assert_eq!(from_iter(&vec![("", "z"), ("c", "3")]), "c=3");
}

#[test]
fn params_are_found_again() {
    let ps = vec![("k", "v"), ("l", ""), ("k", "w")];
    let s = from_iter(&ps);
    assert_eq!(get(&s, "k"), Some("v"));
    assert_eq!(get(&s, "l"), Some(""));
    assert_eq!(get(&s, "v"), None);
}

#[test]
fn socket_gets_what_the_link_asks_for() {
    let c = TcpLinkConfig::new("iface=lo;rx_buffer_size=1;tx_buffer_size=2").unwrap();
    let socket = TcpSocketConfig::from(c);
    assert_eq!(socket.tx_buffer_size, Some(2));
    assert_eq!(socket.rx_buffer_size, Some(1));
    assert_eq!(socket.iface, Some("lo"));
    assert_eq!(BIND_INTERFACE, "iface");
}
