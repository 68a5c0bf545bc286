use rs_shamir::encoder::{
    CauchyEncoder, LagrangeInterpolationEncoder, RSEncoder, RSStream, VandermondeEncoder,
};
use rs_shamir::encoding::Encoding;
use rs_shamir::error::RsError;
use rs_shamir::finite_field::{DirectField, ExpLogField, Field256, TableField};
use std::str::FromStr;

fn encode_bytes_empty_with<E: RSEncoder + Default>() {
    let direct = DirectField::default();
    let encoding: Encoding = FromStr::from_str("rs=9.4").unwrap();
    let expected = RSStream::empty(encoding.clone());
    let encoder = E::default();
    assert_eq!(encoder.encode_bytes(encoding, &direct, &[]).unwrap(), expected);
}

#[test]
fn encode_bytes_empty_lagrange() {
    encode_bytes_empty_with::<LagrangeInterpolationEncoder>();
}

#[test]
fn encode_bytes_empty_vandermonde() {
    encode_bytes_empty_with::<VandermondeEncoder>();
}

#[test]
fn encode_bytes_empty() {
    encode_bytes_empty_with::<LagrangeInterpolationEncoder>();
    encode_bytes_empty_with::<CauchyEncoder>();
}

fn encode_bytes_small_with<E: RSEncoder + Default>() {
    let direct = DirectField::default();
    let bytes = "DEADBEEF".as_bytes();
    let encoding: Encoding = FromStr::from_str("rs=4.2").unwrap();
    let expected = RSStream {
        length: 8,
        encoding: encoding.clone(),
        codes: vec![
            vec![0x44, 0x45, 0x41, 0x44, 0x02, 0x1B],
            vec![0x42, 0x45, 0x45, 0x46, 0x38, 0x27],
        ],
        valid: vec![],
    };
    let encoder = E::default();
    assert_eq!(encoder.encode_bytes(encoding, &direct, &bytes).unwrap(), expected);
}

#[test]
fn encode_bytes_small_lagrange() {
    encode_bytes_small_with::<LagrangeInterpolationEncoder>();
}

#[test]
fn encode_bytes_small_vandermonde() {
    encode_bytes_small_with::<VandermondeEncoder>();
}

#[test]
fn encode_bytes_small() {
    encode_bytes_small_with::<LagrangeInterpolationEncoder>();
}

#[test]
fn encode_bytes_small_cauchy() {
    encode_bytes_small_with::<CauchyEncoder>();
}

fn decode_bytes_no_erasures_with<E: RSEncoder + Default>() {
    let direct = DirectField::default();
    let encoding: Encoding = FromStr::from_str("rs=4.2").unwrap();
    let input = RSStream {
        length: 8,
        encoding: encoding.clone(),
        codes: vec![
            vec![0x44, 0x45, 0x41, 0x44, 0x02, 0x1B],
            vec![0x42, 0x45, 0x45, 0x46, 0x38, 0x27],
        ],
        valid: vec![true, true, true, true, true, true],
    };
    let encoder = E::default();
    let res = encoder.decode_bytes(&input, &direct);
    assert!(res.is_ok());
    assert_eq!(res.unwrap(), vec![0x44, 0x45, 0x41, 0x44, 0x42, 0x45, 0x45, 0x46]);
}

#[test]
fn decode_bytes_no_erasures_lagrange() {
    decode_bytes_no_erasures_with::<LagrangeInterpolationEncoder>();
}

#[test]
fn decode_bytes_no_erasures_vandermonde() {
    decode_bytes_no_erasures_with::<VandermondeEncoder>();
}

#[test]
fn decode_bytes_no_erasures() {
    decode_bytes_no_erasures_with::<LagrangeInterpolationEncoder>();
}

fn decode_bytes_code_erasure_with<E: RSEncoder + Default>() {
    let direct = DirectField::default();
    let encoding: Encoding = FromStr::from_str("rs=4.2").unwrap();
    let input = RSStream {
        length: 8,
        encoding: encoding.clone(),
        codes: vec![
            vec![0x44, 0x45, 0x41, 0x44, 0x00, 0x00],
            vec![0x42, 0x45, 0x45, 0x46, 0x00, 0x00],
        ],
        valid: vec![true, true, true, true, false, false],
    };
    let encoder = E::default();
    let res = encoder.decode_bytes(&input, &direct);
    assert!(res.is_ok());
    assert_eq!(res.expect("Got: "), vec![0x44, 0x45, 0x41, 0x44, 0x42, 0x45, 0x45, 0x46]);
}

#[test]
fn decode_bytes_code_erasure_lagrange() {
    decode_bytes_code_erasure_with::<LagrangeInterpolationEncoder>();
}

#[test]
fn decode_bytes_code_erasures_vandermonde() {
    decode_bytes_code_erasure_with::<VandermondeEncoder>();
}

#[test]
fn decode_bytes_code_erasure() {
    decode_bytes_code_erasure_with::<LagrangeInterpolationEncoder>();
}

fn decode_bytes_data_erasure_with<E: RSEncoder + Default>() {
    let direct = DirectField::default();
    let encoding: Encoding = FromStr::from_str("rs=4.2").unwrap();
    let input = RSStream {
        length: 8,
        encoding: encoding.clone(),
        codes: vec![
            vec![0x00, 0x45, 0x00, 0x44, 0x02, 0x1B],
            vec![0x00, 0x45, 0x00, 0x46, 0x38, 0x27],
        ],
        valid: vec![false, true, false, true, true, true],
    };
    let encoder = E::default();
    let res = encoder.decode_bytes(&input, &direct);
    assert_eq!(res.expect("Got: "), vec![0x44, 0x45, 0x41, 0x44, 0x42, 0x45, 0x45, 0x46]);
}

#[test]
fn decode_bytes_data_erasure_lagrange() {
    decode_bytes_data_erasure_with::<LagrangeInterpolationEncoder>();
}

#[test]
fn decode_bytes_data_erasures_vandermonde() {
    decode_bytes_data_erasure_with::<VandermondeEncoder>();
}

#[test]
fn decode_bytes_data_erasures_cauchy() {
    decode_bytes_data_erasure_with::<CauchyEncoder>();
}

#[test]
fn decode_bytes_data_erasure() {
    decode_bytes_data_erasure_with::<LagrangeInterpolationEncoder>();
}

fn decode_bytes_too_many_erasures_with<E: RSEncoder + Default>() {
    let direct = DirectField::default();
    let encoding: Encoding = FromStr::from_str("rs=4.2").unwrap();
    let input = RSStream {
        length: 8,
        encoding: encoding.clone(),
        codes: vec![
            vec![0x00, 0x00, 0x00, 0x44, 0x02, 0x1B],
            vec![0x00, 0x00, 0x00, 0x46, 0x38, 0x27],
        ],
        valid: vec![false, false, false, true, true, true],
    };
    let encoder = E::default();
    let res = encoder.decode_bytes(&input, &direct);
    assert_eq!(res.is_err(), true);
    assert_eq!(res, Err(RsError::TooManyErasures));
}

#[test]
fn decode_bytes_too_many_erasures_lagrange() {
    decode_bytes_too_many_erasures_with::<LagrangeInterpolationEncoder>();
}

#[test]
fn decode_bytes_too_many_erasures_vandermonde() {
    decode_bytes_too_many_erasures_with::<VandermondeEncoder>();
}

#[test]
fn decode_bytes_too_many_erasures() {
    decode_bytes_too_many_erasures_with::<LagrangeInterpolationEncoder>();
    decode_bytes_too_many_erasures_with::<CauchyEncoder>();
}

fn sample(len: usize) -> Vec<u8> {
    (0..len).map(|i| ((i * 131 + 7) % 251) as u8).collect()
}

fn round_trip_with<E: RSEncoder + Default, F: Field256 + Default>(text: &str) {
    let field = F::default();
    let encoder = E::default();
    let encoding = Encoding::parse(text).unwrap();
    for len in [0usize, 1, 5, 8, 33, 100] {
        let bytes = sample(len);
        let stream = encoder.encode_bytes(encoding, &field, &bytes).unwrap();
        assert_eq!(stream.valid, Vec::<bool>::new());
        assert_eq!(encoder.decode_bytes(&stream, &field).unwrap(), bytes);
        let n = encoding.total_chunks();
        let mut all = RSStream {
            length: stream.length,
            encoding: stream.encoding,
            codes: stream.codes.clone(),
            valid: vec![true; n],
        };
        assert_eq!(encoder.decode_bytes(&all, &field).unwrap(), bytes);
        let k = encoding.data_chunks as usize;
        let m = encoding.code_chunks as usize;
        if len > 0 {
            // Erase up to m columns, data columns first: the buffer still comes back.
            for erased in 1..=m {
                let mut valid = vec![true; n];
                for c in 0..erased {
                    valid[(c * 3) % n] = false;
                }
                let lost: Vec<usize> = (0..n).filter(|c| !valid[*c]).collect();
                let mut damaged = RSStream {
                    length: stream.length,
                    encoding: stream.encoding,
                    codes: stream.codes.clone(),
                    valid: valid.clone(),
                };
                for row in damaged.codes.iter_mut() {
                    for c in lost.iter() {
                        row[*c] = 0xAA;
                    }
                }
                if lost.len() <= m {
                    assert_eq!(encoder.decode_bytes(&damaged, &field).unwrap(), bytes);
                }
            }
            // m + 1 erased columns are too many.
            for c in 0..=m {
                all.valid[(c + k / 2) % n] = false;
            }
            assert_eq!(encoder.decode_bytes(&all, &field), Err(RsError::TooManyErasures));
        }
    }
}

#[test]
fn round_trip_and_erasure_recovery_every_codec_and_field() {
    for text in ["rs=4.2", "rs=3.3", "rs=5.0", "rs=1.2", "rs=10.4"] {
        round_trip_with::<LagrangeInterpolationEncoder, DirectField>(text);
        round_trip_with::<VandermondeEncoder, ExpLogField>(text);
        round_trip_with::<CauchyEncoder, TableField>(text);
        round_trip_with::<VandermondeEncoder, DirectField>(text);
        round_trip_with::<CauchyEncoder, ExpLogField>(text);
    }
}

#[test]
fn codecs_produce_identical_codes() {
    let field = ExpLogField::default();
    let bytes = sample(57);
    for text in ["rs=4.2", "rs=7.5", "rs=16.8"] {
        let encoding = Encoding::parse(text).unwrap();
        let a = LagrangeInterpolationEncoder.encode_bytes(encoding, &field, &bytes).unwrap();
        let b = VandermondeEncoder {}.encode_bytes(encoding, &field, &bytes).unwrap();
        let c = CauchyEncoder {}.encode_bytes(encoding, &field, &bytes).unwrap();
        assert_eq!(a, b);
        assert_eq!(a, c);
    }
}

#[test]
fn encode_pads_the_last_stripe_with_zeros() {
    let direct = DirectField::default();
    let encoding = Encoding::parse("rs=4.2").unwrap();
    let s = VandermondeEncoder {}.encode_bytes(encoding, &direct, &[9, 8, 7, 6, 5]).unwrap();
    assert_eq!(s.length, 5);
    assert_eq!(s.codes.len(), 2);
    assert_eq!(&s.codes[1][..4], &[5, 0, 0, 0]);
}
