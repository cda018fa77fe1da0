use landns::configuration::{parse_port, ConfigurationError};

#[test]
fn parse_port_accepts_numbers() {
    assert_eq!(parse_port("3853"), Ok(3853));
    assert_eq!(parse_port("0"), Ok(0));
    assert_eq!(parse_port("65535"), Ok(65535));
    assert_eq!(parse_port("+80"), Ok(80));
    assert_eq!(parse_port("0080"), Ok(80));
}

#[test]
fn parse_port_refuses_others() {
    for t in ["", "+", "-1", "65536", "99999999999", "80a", " 80", "++1", "٣"] {
        assert_eq!(parse_port(t), Err(ConfigurationError::InvalidPort(t.to_string())));
    }
}
