//! The erasure-code parameters `(k, m)` and their text form `rs=k.m`.
use vstd::prelude::*;
use crate::error::RsError;
use vstd::string::StringSliceAdditionalSpecFns;

verus! {

/// `k` data symbols and `m` code symbols per stripe.
#[derive(Debug, PartialEq, Eq, Clone, Copy, Structural)]
pub struct Encoding {
    pub data_chunks: u8,
    pub code_chunks: u8,
}

pub open spec fn is_digit(c: u8) -> bool {
    48 <= c <= 57
}

pub open spec fn all_digits(s: Seq<u8>) -> bool {
    forall|i: int| 0 <= i < s.len() ==> is_digit(#[trigger] s[i])
}

/// The number written by the decimal digits `s`.
pub open spec fn digits_value(s: Seq<u8>) -> nat
    decreases s.len(),
{
    if s.len() == 0 {
        0
    } else {
        digits_value(s.drop_last()) * 10 + (s.last() - 48) as nat
    }
}

/// `text` reads `rs=` D1 `.` D2 with the dot at `dot` and D1, D2 non-empty digit strings.
pub open spec fn encoding_text(text: Seq<u8>, dot: int) -> bool {
    &&& text.len() >= 3
    &&& text[0] == 114 && text[1] == 115 && text[2] == 61
    &&& 3 < dot && dot + 1 < text.len()
    &&& text[dot] == 46
    &&& all_digits(text.subrange(3, dot))
    &&& all_digits(text.subrange(dot + 1, text.len() as int))
}

/// The data count written before the dot.
pub open spec fn text_data(text: Seq<u8>, dot: int) -> nat {
    digits_value(text.subrange(3, dot))
}

/// The code count written after the dot.
pub open spec fn text_code(text: Seq<u8>, dot: int) -> nat {
    digits_value(text.subrange(dot + 1, text.len() as int))
}

/// The value of a digit string, capped at 256.
pub open spec fn capped(v: nat) -> nat {
    if v > 256 {
        256
    } else {
        v
    }
}

/// Reads the digits of `b` from `start`; returns the capped value and where the digits end.
fn scan_digits(b: &[u8], start: usize) -> (r: (u32, usize))
    requires
        start <= b@.len(),
    ensures
        start <= r.1 <= b@.len(),
        all_digits(b@.subrange(start as int, r.1 as int)),
        r.1 == b@.len() || !is_digit(b@[r.1 as int]),
        r.0 == capped(digits_value(b@.subrange(start as int, r.1 as int))),
{
    let mut v: u32 = 0;
    let mut i: usize = start;
    while i < b.len() && 48 <= b[i] && b[i] <= 57
        invariant
            start <= i <= b@.len(),
            all_digits(b@.subrange(start as int, i as int)),
            v == capped(digits_value(b@.subrange(start as int, i as int))),
        decreases b.len() - i,
    {
        let d = (b[i] - 48) as u32;
        proof {
            let s = b@.subrange(start as int, i + 1);
            assert(s.drop_last() =~= b@.subrange(start as int, i as int));
            assert(digits_value(s) == digits_value(s.drop_last()) * 10 + d);
            if digits_value(s.drop_last()) > 256 {
                assert(digits_value(s.drop_last()) * 10 + d > 256) by (nonlinear_arith)
                    requires
                        digits_value(s.drop_last()) > 256,
                ;
            }
            assert forall|t: int| 0 <= t < s.len() implies is_digit(#[trigger] s[t]) by {
                if t < s.len() - 1 {
                    assert(s[t] == b@.subrange(start as int, i as int)[t]);
                }
            }
        }
        v = if v > 255 {
            256
        } else {
            let w = v * 10 + d;
            if w > 256 {
                256
            } else {
                w
            }
        };
        i = i + 1;
    }
    (v, i)
}

impl Encoding {
    /// Total symbols per stripe, `k + m`.
    pub fn total_chunks(&self) -> (r: usize)
        ensures
            r == self.data_chunks + self.code_chunks,
    {
        self.data_chunks as usize + self.code_chunks as usize
    }

    /// Reads `rs=k.m`. Fails with `BadEncoding` unless the text has that form with decimal
    /// `k` and `m` and `k + m <= 255`.
    pub fn parse(s: &str) -> (r: Result<Encoding, RsError>)
        ensures
            match r {
                Ok(e) => e.data_chunks + e.code_chunks <= 255 && exists|dot: int|
                    encoding_text(s.spec_bytes(), dot) && text_data(s.spec_bytes(), dot)
                        == e.data_chunks && text_code(s.spec_bytes(), dot) == e.code_chunks,
                Err(e) => e == RsError::BadEncoding && forall|dot: int|
                    #[trigger] encoding_text(s.spec_bytes(), dot) ==> text_data(s.spec_bytes(), dot)
                        + text_code(s.spec_bytes(), dot) > 255,
            },
    {
        let b = s.as_bytes();
        let ghost t = s.spec_bytes();
        if b.len() < 3 || b[0] != 114 || b[1] != 115 || b[2] != 61 {
            return Err(RsError::BadEncoding);
        }
        let (k, dot) = scan_digits(b, 3);
        proof {
            assert forall|p: int| #[trigger] encoding_text(t, p) implies p == dot by {
                if p < dot {
                    assert(b@.subrange(3, dot as int)[p - 3] == t[p]);
                } else if dot < p {
                    assert(t.subrange(3, p)[dot - 3] == t[dot as int]);
                }
            }
        }
        if dot == 3 || dot >= b.len() - 1 || b[dot] != 46 {
            return Err(RsError::BadEncoding);
        }
        let (m, end) = scan_digits(b, dot + 1);
        if end != b.len() {
            proof {
                assert forall|p: int| #[trigger] encoding_text(t, p) implies false by {
                    assert(t.subrange(dot + 1, t.len() as int)[end - dot - 1] == t[end as int]);
                }
            }
            return Err(RsError::BadEncoding);
        }
        proof {
            assert(encoding_text(t, dot as int));
        }
        if k + m > 255 {
            return Err(RsError::BadEncoding);
        }
        Ok(Encoding { data_chunks: k as u8, code_chunks: m as u8 })
    }
}

impl core::str::FromStr for Encoding {
    type Err = RsError;

    fn from_str(s: &str) -> Result<Encoding, RsError> {
        Encoding::parse(s)
    }
}

} // verus!
