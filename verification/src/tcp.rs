//! The configuration of TCP links.

use vstd::prelude::*;
use vstd::std_specs::convert::{FromSpec, FromSpecImpl};

use crate::decimal::{
    decimal, is_digit, is_number, law_decimal_is_read_back, lemma_char_number, lemma_decimal,
    number, parse_u32, parsed_u32, to_decimal,
};
use crate::params::{
    first_value, from_iter, get, law_lists_are_written_pair_by_pair, law_params_are_found, param,
    params, separable, texts,
};

verus! {

/// The parameter that names the network interface to bind to.
pub const BIND_INTERFACE: &'static str = "iface";

/// The parameter that sets the size of the receive buffer.
pub const TCP_RX_BUFFER_SIZE: &'static str = "rx_buffer_size";

/// The parameter that sets the size of the send buffer.
pub const TCP_TX_BUFFER_SIZE: &'static str = "tx_buffer_size";

/// What the configuration of a node says about its TCP links.
#[derive(Clone, Copy, PartialEq, Eq, Structural, Debug)]
pub struct TcpSettings {
    pub tcp_rx_buffer: Option<u32>,
    pub tcp_tx_buffer: Option<u32>,
}

/// Why the parameters of a TCP link are refused. Each comes with the value that is no size.
#[derive(Debug)]
pub enum TcpConfigError {
    UnknownRxBufferSize(String),
    UnknownTxBufferSize(String),
}

impl TcpConfigError {
    /// The words for the error.
    pub open spec fn text(self) -> Seq<char> {
        match self {
            TcpConfigError::UnknownRxBufferSize(size) => {
                "Unknown TCP read buffer size argument: "@ + size@
            },
            TcpConfigError::UnknownTxBufferSize(size) => {
                "Unknown TCP write buffer size argument: "@ + size@
            },
        }
    }

    /// The words for the error.
    pub fn message(&self) -> (s: String)
        ensures
            s@ == self.text(),
    {
        match self {
            TcpConfigError::UnknownRxBufferSize(size) => {
                "Unknown TCP read buffer size argument: ".to_owned().concat(size.as_str())
            },
            TcpConfigError::UnknownTxBufferSize(size) => {
                "Unknown TCP write buffer size argument: ".to_owned().concat(size.as_str())
            },
        }
    }
}

/// The parameters that settings stand for.
pub open spec fn setting_params(c: TcpSettings) -> Seq<(Seq<char>, Seq<char>)> {
    let rx = match c.tcp_rx_buffer {
        Some(size) => seq![(TCP_RX_BUFFER_SIZE@, decimal(size as nat))],
        None => Seq::empty(),
    };
    let tx = match c.tcp_tx_buffer {
        Some(size) => seq![(TCP_TX_BUFFER_SIZE@, decimal(size as nat))],
        None => Seq::empty(),
    };
    rx + tx
}

/// Turns the settings of a node into the parameters of its TCP links.
#[derive(Clone, Copy, Debug)]
pub struct TcpConfigurator;

impl Default for TcpConfigurator {
    fn default() -> (r: Self)
        ensures
            r == TcpConfigurator,
    {
        TcpConfigurator
    }
}

impl TcpConfigurator {
    /// The parameter list of the settings. There is always one.
    pub fn inspect_config(&self, config: &TcpSettings) -> (r: Result<String, TcpConfigError>)
        ensures
            r matches Ok(s) && s@ == params(setting_params(*config)),
    {
        let rx_buffer_size: String;
        let tx_buffer_size: String;
        let mut ps: Vec<(&str, &str)> = Vec::new();
        if let Some(size) = config.tcp_rx_buffer {
            rx_buffer_size = to_decimal(size as u64);
            ps.push((TCP_RX_BUFFER_SIZE, rx_buffer_size.as_str()));
        }
        if let Some(size) = config.tcp_tx_buffer {
            tx_buffer_size = to_decimal(size as u64);
            ps.push((TCP_TX_BUFFER_SIZE, tx_buffer_size.as_str()));
        }
        proof {
            assert(texts(ps@) =~= setting_params(*config));
        }
        Ok(from_iter(&ps))
    }
}

/// The size that the parameter `k` of the list `s` sets: none where it is not there, an error
/// with the value where that is no size.
pub open spec fn size_param(s: Seq<char>, k: Seq<char>) -> Result<Option<u32>, Seq<char>> {
    match param(s, k) {
        Some(v) => match parsed_u32(v) {
            Some(n) => Ok(Some(n)),
            None => Err(v),
        },
        None => Ok(None),
    }
}

/// What the parameters of a TCP link ask for.
#[derive(Clone, Copy, Debug)]
pub struct TcpLinkConfig<'a> {
    pub rx_buffer_size: Option<u32>,
    pub tx_buffer_size: Option<u32>,
    pub bind_iface: Option<&'a str>,
}

/// The text of an optional piece of text.
pub open spec fn opt_text(s: Option<&str>) -> Option<Seq<char>> {
    match s {
        Some(s) => Some(s@),
        None => None,
    }
}

impl<'a> TcpLinkConfig<'a> {
    /// Reads the parameter list of a link.
    pub fn new(config: &'a str) -> (r: Result<Self, TcpConfigError>)
        ensures
            match r {
                Ok(c) => {
                    &&& size_param(config@, TCP_RX_BUFFER_SIZE@) == Ok::<Option<u32>, Seq<char>>(
                        c.rx_buffer_size,
                    )
                    &&& size_param(config@, TCP_TX_BUFFER_SIZE@) == Ok::<Option<u32>, Seq<char>>(
                        c.tx_buffer_size,
                    )
                    &&& opt_text(c.bind_iface) == param(config@, BIND_INTERFACE@)
                },
                Err(TcpConfigError::UnknownRxBufferSize(size)) => size_param(
                    config@,
                    TCP_RX_BUFFER_SIZE@,
                ) == Err::<Option<u32>, Seq<char>>(size@),
                Err(TcpConfigError::UnknownTxBufferSize(size)) => size_param(
                    config@,
                    TCP_RX_BUFFER_SIZE@,
                ) is Ok && size_param(config@, TCP_TX_BUFFER_SIZE@) == Err::<
                    Option<u32>,
                    Seq<char>,
                >(size@),
            },
    {
        let mut tcp_config = TcpLinkConfig {
            rx_buffer_size: None,
            tx_buffer_size: None,
            bind_iface: get(config, BIND_INTERFACE),
        };
        if let Some(size) = get(config, TCP_RX_BUFFER_SIZE) {
            match parse_u32(size) {
                Some(n) => {
                    tcp_config.rx_buffer_size = Some(n);
                },
                None => {
                    return Err(TcpConfigError::UnknownRxBufferSize(size.to_owned()));
                },
            }
        }
        if let Some(size) = get(config, TCP_TX_BUFFER_SIZE) {
            match parse_u32(size) {
                Some(n) => {
                    tcp_config.tx_buffer_size = Some(n);
                },
                None => {
                    return Err(TcpConfigError::UnknownTxBufferSize(size.to_owned()));
                },
            }
        }
        Ok(tcp_config)
    }
}

/// How a TCP socket is set up.
#[derive(Clone, Copy, Debug)]
pub struct TcpSocketConfig<'a> {
    pub tx_buffer_size: Option<u32>,
    pub rx_buffer_size: Option<u32>,
    pub iface: Option<&'a str>,
}

impl<'a> TcpSocketConfig<'a> {
    pub fn new(
        tx_buffer_size: Option<u32>,
        rx_buffer_size: Option<u32>,
        iface: Option<&'a str>,
    ) -> (c: Self)
        ensures
            c == (TcpSocketConfig { tx_buffer_size, rx_buffer_size, iface }),
    {
        TcpSocketConfig { tx_buffer_size, rx_buffer_size, iface }
    }
}

impl<'a> From<TcpLinkConfig<'a>> for TcpSocketConfig<'a> {
    fn from(value: TcpLinkConfig<'a>) -> (c: Self) {
        TcpSocketConfig::new(value.tx_buffer_size, value.rx_buffer_size, value.bind_iface)
    }
}

impl<'a> FromSpecImpl<TcpLinkConfig<'a>> for TcpSocketConfig<'a> {
    open spec fn obeys_from_spec() -> bool {
        true
    }

    open spec fn from_spec(value: TcpLinkConfig<'a>) -> Self {
        TcpSocketConfig {
            tx_buffer_size: value.tx_buffer_size,
            rx_buffer_size: value.rx_buffer_size,
            iface: value.bind_iface,
        }
    }
}

/// A link whose parameters come from the settings of the node gets the buffer sizes that are
/// set there, and is bound to no interface.
pub proof fn law_settings_reach_the_link(c: TcpSettings)
    ensures
        ({
            let s = params(setting_params(c));
            &&& size_param(s, TCP_RX_BUFFER_SIZE@) == Ok::<Option<u32>, Seq<char>>(c.tcp_rx_buffer)
            &&& size_param(s, TCP_TX_BUFFER_SIZE@) == Ok::<Option<u32>, Seq<char>>(c.tcp_tx_buffer)
            &&& param(s, BIND_INTERFACE@) is None
        }),
{
    reveal_strlit("iface");
    reveal_strlit("rx_buffer_size");
    reveal_strlit("tx_buffer_size");
    let ps = setting_params(c);
    assert forall|n: nat| !(#[trigger] decimal(n)).contains(';') by {
        lemma_decimal(n);
        if decimal(n).contains(';') {
            let i = choose|i: int| 0 <= i < decimal(n).len() && decimal(n)[i] == ';';
            assert(is_digit(decimal(n)[i]));
        }
    }
    assert(TCP_RX_BUFFER_SIZE@[0] == 'r' && TCP_TX_BUFFER_SIZE@[0] == 't' && BIND_INTERFACE@[0]
        == 'i');
    assert(separable(ps));
    if c.tcp_rx_buffer is Some {
        law_decimal_is_read_back(c.tcp_rx_buffer->0);
    }
    if c.tcp_tx_buffer is Some {
        law_decimal_is_read_back(c.tcp_tx_buffer->0);
    }
    law_params_are_found(ps, TCP_RX_BUFFER_SIZE@);
    law_params_are_found(ps, TCP_TX_BUFFER_SIZE@);
    law_params_are_found(ps, BIND_INTERFACE@);
    reveal_with_fuel(first_value, 3);
    if ps.len() == 2 {
        assert(ps.skip(1)[0] == ps[1]);
    }
}

/// The sizes that are set are written as `key=number`, that of the receive buffer first, with a
/// `;` between them where both are set; what is not set is not written.
pub proof fn law_settings_are_written_out(c: TcpSettings)
    ensures
        ({
            let rx = match c.tcp_rx_buffer {
                Some(size) => TCP_RX_BUFFER_SIZE@ + seq!['='] + decimal(size as nat),
                None => Seq::empty(),
            };
            let tx = match c.tcp_tx_buffer {
                Some(size) => TCP_TX_BUFFER_SIZE@ + seq!['='] + decimal(size as nat),
                None => Seq::empty(),
            };
            params(setting_params(c)) == if c.tcp_rx_buffer is Some && c.tcp_tx_buffer is Some {
                rx + seq![';'] + tx
            } else {
                rx + tx
            }
        }),
{
    reveal_strlit("rx_buffer_size");
    reveal_strlit("tx_buffer_size");
    let ps = setting_params(c);
    let none = Seq::<(Seq<char>, Seq<char>)>::empty();
    let (a, b) = (TCP_RX_BUFFER_SIZE@, TCP_TX_BUFFER_SIZE@);
    if c.tcp_tx_buffer is Some {
        let n = decimal(c.tcp_tx_buffer->0 as nat);
        lemma_decimal(c.tcp_tx_buffer->0 as nat);
        law_lists_are_written_pair_by_pair(b, n, none);
        assert(seq![(b, n)] + none =~= seq![(b, n)]);
        assert(params(seq![(b, n)]) =~= b + seq!['='] + n);
    }
    if c.tcp_rx_buffer is Some {
        let n = decimal(c.tcp_rx_buffer->0 as nat);
        lemma_decimal(c.tcp_rx_buffer->0 as nat);
        let rest = if c.tcp_tx_buffer is Some {
            seq![(b, decimal(c.tcp_tx_buffer->0 as nat))]
        } else {
            none
        };
        law_lists_are_written_pair_by_pair(a, n, rest);
        assert(ps =~= seq![(a, n)] + rest);
        let rx = a + seq!['='] + n;
        if c.tcp_tx_buffer is Some {
            let tx = params(rest);
            assert(params(ps) =~= rx + seq![';'] + tx);
        } else {
            assert(params(ps) =~= rx + Seq::<char>::empty());
        }
    } else {
        let rx = Seq::<char>::empty();
        if c.tcp_tx_buffer is Some {
            assert(ps =~= seq![(b, decimal(c.tcp_tx_buffer->0 as nat))]);
            assert(params(ps) =~= rx + params(ps));
        } else {
            assert(ps =~= none);
            assert(params(ps) =~= rx + rx);
        }
    }
}

/// A size that is not in the list is none. One that is there is the number that its digits, with
/// an optional plus sign before them, stand for; anything else, and a number of more than 32
/// bits, is refused with the value.
pub proof fn law_sizes_are_numbers(s: Seq<char>, k: Seq<char>)
    ensures
        param(s, k) is None ==> size_param(s, k) == Ok::<Option<u32>, Seq<char>>(None),
        param(s, k) matches Some(v) ==> {
            let digits = if v.len() > 0 && v[0] == '+' {
                v.skip(1)
            } else {
                v
            };
            if is_number(digits) && number(digits) <= 0xffff_ffff {
                size_param(s, k) matches Ok(Some(n)) && n == number(digits)
            } else {
                size_param(s, k) == Err::<Option<u32>, Seq<char>>(v)
            }
        },
{
    if param(s, k) is Some {
        let v = param(s, k)->0;
        let digits = if v.len() > 0 && v[0] == '+' {
            v.skip(1)
        } else {
            v
        };
        if is_number(digits) {
            lemma_number_is_not_negative(digits);
        }
    }
}

proof fn lemma_number_is_not_negative(s: Seq<char>)
    requires
        forall|i: int| 0 <= i < s.len() ==> is_digit(#[trigger] s[i]),
    ensures
        number(s) >= 0,
    decreases s.len(),
{
    if s.len() > 0 {
        let rest = s.drop_last();
        assert forall|i: int| 0 <= i < rest.len() implies is_digit(#[trigger] rest[i]) by {
            assert(rest[i] == s[i]);
        }
        lemma_number_is_not_negative(rest);
        assert(is_digit(s[s.len() - 1]));
        lemma_char_number(s.last());
    }
}

/// A socket gets the buffer sizes and the interface that the link asks for, each in its place.
pub proof fn law_socket_gets_what_the_link_asks_for<'a>(link: TcpLinkConfig<'a>)
    ensures
        <TcpSocketConfig<'a> as FromSpec<TcpLinkConfig<'a>>>::obeys_from_spec(),
        ({
            let socket = <TcpSocketConfig<'a> as FromSpec<TcpLinkConfig<'a>>>::from_spec(link);
            &&& socket.tx_buffer_size == link.tx_buffer_size
            &&& socket.rx_buffer_size == link.rx_buffer_size
            &&& socket.iface == link.bind_iface
        }),
{
}

/// Each refusal names the buffer that it is about and the value that is no size.
pub proof fn law_refusals_name_the_buffer(size: String)
    ensures
        TcpConfigError::UnknownRxBufferSize(size).text()
            == "Unknown TCP read buffer size argument: "@ + size@,
        TcpConfigError::UnknownTxBufferSize(size).text()
            == "Unknown TCP write buffer size argument: "@ + size@,
{
}

/// A piece of text that is there is meant as it is written.
pub proof fn law_text_is_meant_as_written(s: &str)
    ensures
        opt_text(Some(s)) == Some(s@),
        opt_text(None) is None,
{
}

} // verus!
