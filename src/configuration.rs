//! Settings: their errors, and the reading of a port number.
use vstd::prelude::*;
use vstd::string::StringSliceAdditionalSpecFns;

verus! {

/// Why the settings could not be taken.
#[derive(Debug, PartialEq, Eq)]
pub enum ConfigurationError {
    /// The port setting is no number from 0 to 65535.
    InvalidPort(String),
    /// The local address setting is no IP address.
    InvalidLocalAddress(String),
    /// No file is at the key path.
    KeyFileDoesNotExist(String),
}

/// `b` is an ASCII decimal digit.
pub open spec fn is_digit(b: u8) -> bool {
    48 <= b <= 57
}

/// The number that the decimal digits `d` write.
pub open spec fn decimal_value(d: Seq<u8>) -> nat
    decreases d.len(),
{
    if d.len() == 0 {
        0
    } else {
        decimal_value(d.drop_last()) * 10 + (d.last() - 48) as nat
    }
}

/// The digits of a port setting: the text without one leading `+`.
pub open spec fn port_digits(t: Seq<u8>) -> Seq<u8> {
    if t.len() > 0 && t[0] == 43 {
        t.drop_first()
    } else {
        t
    }
}

/// The port that the text `t` names: one or more decimal digits, after an
/// optional `+`, whose value is at most 65535.
pub open spec fn port_value(t: Seq<u8>) -> Option<u16> {
    let d = port_digits(t);
    if d.len() > 0 && (forall|i: int| 0 <= i < d.len() ==> is_digit(#[trigger] d[i])) && decimal_value(d)
        <= 65535 {
        Some(decimal_value(d) as u16)
    } else {
        None
    }
}

/// Reads a port number from the text of a setting.
pub fn parse_port(text: &str) -> (r: Result<u16, ConfigurationError>)
    ensures
        match port_value(text.spec_bytes()) {
            Some(p) => r == Ok::<u16, ConfigurationError>(p),
            None => r matches Err(ConfigurationError::InvalidPort(s)) && s@ == text@,
        },
{
    let b = text.as_bytes();
    let n = b.len();
    let start: usize = if n > 0 && b[0] == 43 {
        1
    } else {
        0
    };
    let ghost d = port_digits(b@);
    assert(d == b@.subrange(start as int, n as int));
    if start >= n {
        assert(d.len() == 0);
        return Err(ConfigurationError::InvalidPort(text.to_owned()));
    }
    let mut value: u32 = 0;
    let mut over = false;
    let mut i: usize = start;
    while i < n
        invariant
            n == b@.len(),
            start < n,
            start <= i <= n,
            d == b@.subrange(start as int, n as int),
            d == port_digits(b@),
            b@ == text.spec_bytes(),
            forall|j: int| start <= j < i ==> is_digit(#[trigger] b@[j]),
            !over ==> value == decimal_value(b@.subrange(start as int, i as int)) && value <= 65535,
            over ==> decimal_value(b@.subrange(start as int, i as int)) > 65535,
        decreases n - i,
    {
        if b[i] < 48 || b[i] > 57 {
            assert(!is_digit(d[i - start]));
            return Err(ConfigurationError::InvalidPort(text.to_owned()));
        }
        assert(b@.subrange(start as int, i + 1).drop_last() == b@.subrange(start as int, i as int));
        if !over {
            value = value * 10 + (b[i] - 48) as u32;
            if value > 65535 {
                over = true;
            }
        }
        i = i + 1;
    }
    assert(b@.subrange(start as int, i as int) == d);
    assert forall|j: int| 0 <= j < d.len() implies is_digit(#[trigger] d[j]) by {
        assert(d[j] == b@[start + j]);
    }
    if over {
        Err(ConfigurationError::InvalidPort(text.to_owned()))
    } else {
        Ok(value as u16)
    }
}

} // verus!
