use rs_shamir::encoding::Encoding;
use rs_shamir::error::RsError;
use std::str::FromStr;

#[test]
fn from_str_good() {
    let expected = Encoding {
        data_chunks: 9,
        code_chunks: 4,
    };
    let actual: Result<Encoding, _> = FromStr::from_str("rs=9.4");
    assert_eq!(actual.unwrap(), expected);
}

#[test]
fn from_str_no_code_chunks() {
    let expected = Encoding {
        data_chunks: 5,
        code_chunks: 0,
    };
    let actual: Result<Encoding, _> = FromStr::from_str("rs=5.0");
    assert_eq!(actual.unwrap(), expected);
}

#[test]
fn from_str_invalid_format() {
    let actual: Result<Encoding, _> = FromStr::from_str("9.4");
    assert_eq!(actual.is_err(), true);
}

#[test]
fn from_str_invalid_encoding() {
    let actual: Result<Encoding, _> = FromStr::from_str("rs=128.128");
    assert_eq!(actual.is_err(), true);
}

#[test]
fn parse_rejects_malformed_text() {
    for text in ["", "rs=", "rs=4", "rs=4.", "rs=.2", "rs=4.2.1", "rs=a.2", "rs=4.2x", "RS=4.2", "rs=256.0"] {
        assert_eq!(Encoding::parse(text), Err(RsError::BadEncoding), "{}", text);
    }
}

#[test]
fn parse_accepts_the_sum_bound() {
    assert_eq!(
        Encoding::parse("rs=200.55"),
        Ok(Encoding {
            data_chunks: 200,
            code_chunks: 55
        })
    );
    assert_eq!(Encoding::parse("rs=200.56"), Err(RsError::BadEncoding));
    assert_eq!(
        Encoding::parse("rs=007.01"),
        Ok(Encoding {
            data_chunks: 7,
            code_chunks: 1
        })
    );
    assert_eq!(Encoding::parse("rs=4.2").unwrap().total_chunks(), 6);
}
