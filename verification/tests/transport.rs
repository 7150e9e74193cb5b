use ciron::config::TransportConfig;
use ciron::text::{parse_number, to_decimal, to_signed_decimal, NumberError};
use ciron::transport::{
    select_transports, socket_address, Platform, Transport, TransportError,
};

const LINUX: Platform = Platform { unix: true, vsock: true };

fn texts(
    given: Option<&str>,
    config: &TransportConfig,
    platform: Platform,
) -> Result<Vec<String>, TransportError> {
    let given = given.map(|text| text.to_string());
    let transports = select_transports(&given, config, platform)?;
    Ok(transports.iter().map(|t| t.to_text()).collect())
}

#[test]
fn addresses_are_read() {
    assert!(matches!(
        Transport::parse("inet://127.0.0.1:50051"),
        Ok(Transport::Inet { host, port: 50051 }) if host == "127.0.0.1"
    ));
    assert!(matches!(
        Transport::parse("unix:///tmp/cirond.sock"),
        Ok(Transport::Unix { path }) if path == "/tmp/cirond.sock"
    ));
    assert!(matches!(
        Transport::parse("vsock://3:1024"),
        Ok(Transport::Vsock { cid: 3, port: 1024 })
    ));
}

#[test]
fn wrong_addresses_are_refused() {
    let error = |text: &str| Transport::parse(text).unwrap_err();
    assert_eq!(error("http://x:1"), TransportError::UnknownScheme);
    assert_eq!(error(""), TransportError::UnknownScheme);
    assert_eq!(error("inet://localhost"), TransportError::MissingPort);
    assert_eq!(error("inet://::1:80"), TransportError::MissingPort);
    assert_eq!(error("inet://a:65536"), TransportError::Port(NumberError::TooLarge));
    assert_eq!(error("inet://a:"), TransportError::Port(NumberError::Empty));
    assert_eq!(error("vsock://x:1"), TransportError::Cid(NumberError::InvalidDigit));
    assert_eq!(error("vsock://1:-1"), TransportError::Port(NumberError::InvalidDigit));
    assert_eq!(error("vsock://1"), TransportError::MissingPort);
}

#[test]
fn written_addresses_are_read_back() {
    for text in ["inet://localhost:0", "inet://:65535", "unix://", "vsock://4294967295:7"] {
        assert_eq!(Transport::parse(text).unwrap().to_text(), text);
    }
    assert_eq!(socket_address("h", 80), "h:80");
}

#[test]
fn given_address_overrides_the_configuration() {
    let config = TransportConfig::default();
    assert_eq!(
        texts(Some("inet://a:1"), &config, LINUX),
        Ok(vec!["inet://a:1".to_string()])
    );
    assert_eq!(
        texts(Some("nonsense"), &config, LINUX),
        Err(TransportError::UnknownScheme)
    );
}

#[test]
fn default_is_the_unix_socket() {
    let config = TransportConfig::default();
    assert_eq!(
        texts(None, &config, LINUX),
        Ok(vec!["unix:///tmp/cirond.sock".to_string()])
    );
    let bare = Platform { unix: false, vsock: false };
    assert_eq!(texts(None, &config, bare), Err(TransportError::NoneEnabled));
}

#[test]
fn all_enabled_addresses_are_used() {
    let mut config = TransportConfig::default();
    config.enable_inet = true;
    config.enable_vsock = true;
    assert_eq!(
        texts(None, &config, LINUX),
        Ok(vec![
            "unix:///tmp/cirond.sock".to_string(),
            "inet://127.0.0.1:50051".to_string(),
            "vsock://4294967295:50051".to_string(),
        ])
    );
    config.inet_address = "no port".to_string();
    config.enable_unix = false;
    let mac = Platform { unix: true, vsock: false };
    assert_eq!(texts(None, &config, mac), Err(TransportError::NoneEnabled));
    assert_eq!(
        texts(None, &config, LINUX),
        Ok(vec!["vsock://4294967295:50051".to_string()])
    );
    config.inet_address = "a:b".to_string();
    assert_eq!(
        texts(None, &config, LINUX),
        Err(TransportError::Port(NumberError::InvalidDigit))
    );
}

#[test]
fn transport_errors_in_words() {
    assert_eq!(
        TransportError::NoneEnabled.message(),
        "At least one transport must be enabled"
    );
    assert_eq!(
        TransportError::Port(NumberError::TooLarge).message(),
        "number too large to fit in target type"
    );
    assert_eq!(
        TransportError::Cid(NumberError::Empty).message(),
        "cannot parse integer from empty string"
    );
    assert_eq!(TransportError::UnknownScheme.message(), "Unknown transport scheme");
    assert_eq!(
        TransportError::MissingPort.message(),
        "Expected an address of the form host:port"
    );
}

#[test]
fn numbers_are_read_as_the_standard_library_reads_them() {
    let texts = [
        "", "+", "-", "0", "+0", "007", "65535", "65536", "+65535", "-1", "99999x", "9999x",
        " 1", "1 ", "1_0", "++1", "655350", "\u{663}",
    ];
    for text in texts {
        let expected = text.parse::<u16>();
        match (parse_number(text, 65535), expected) {
            (Ok(value), Ok(expected)) => assert_eq!(value, expected as u64, "{}", text),
            (Err(error), Err(expected)) => {
                assert_eq!(error.message(), expected.to_string(), "{}", text)
            }
            (value, expected) => panic!("{}: {:?} against {:?}", text, value, expected),
        }
    }
    assert_eq!(parse_number("18446744073709551615", u64::MAX), Ok(u64::MAX));
    assert_eq!(
        parse_number("18446744073709551616", u64::MAX),
        Err(NumberError::TooLarge)
    );
    assert_eq!(parse_number("5", 3), Err(NumberError::TooLarge));
}

#[test]
fn decimal_notation_is_read_back() {
    for n in [0u64, 9, 10, 99, 100, 1234567890, u64::MAX] {
        assert_eq!(parse_number(&to_decimal(n as u128), u64::MAX), Ok(n));
        assert_eq!(to_decimal(n as u128), n.to_string());
    }
    assert_eq!(to_decimal(u128::MAX), u128::MAX.to_string());
    for n in [0i32, 5, -5, i32::MAX, i32::MIN] {
        assert_eq!(to_signed_decimal(n), n.to_string());
    }
}
