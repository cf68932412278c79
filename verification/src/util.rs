//! Byte-string helpers shared by the tracker client: the raw-byte URL
//! encoding of binary query values, decimal formatting, and text conversion.
use vstd::prelude::*;

verus! {

use crate::bencode::dec_digits;
use vstd::utf8::{valid_utf8, decode_utf8};
use vstd::string::StringSliceAdditionalSpecFns;

/// Relies on std's `String::push`: appends the character to the string.
pub assume_specification[ String::push ](s: &mut String, c: char)
    ensures
        final(s)@ == old(s)@.push(c),
;

/// Relies on std's `String::from_utf8`: succeeds exactly on valid UTF-8 and
/// then holds the decoded characters of the input bytes.
#[verifier::external_body]
pub(crate) fn utf8_to_string(b: &Vec<u8>) -> (r: Option<String>)
    ensures
        r is Some <==> valid_utf8(b@),
        r matches Some(s) ==> s@ == decode_utf8(b@),
{
    String::from_utf8(b.clone()).ok()
}

/// Decimal digits of `n` as characters, most significant first.
pub open spec fn dec_str(n: int) -> Seq<char> {
    dec_digits(n).map_values(|b: u8| b as char)
}

/// Format `n` in decimal.
pub fn u64_to_string(n: u64) -> (r: String)
    ensures
        r@ == dec_str(n as int),
{
    let mut digits: Vec<u8> = Vec::new();
    let d0: u8 = (n % 10) as u8 + 48;
    digits.push(d0);
    let mut m: u64 = n / 10;
    proof {
        if m > 0 {
            assert(dec_digits(n as int) == dec_digits(n as int / 10).push(d0));
            assert(dec_digits(n as int) =~= dec_digits(m as int) + digits@.reverse());
        } else {
            assert(dec_digits(n as int) =~= digits@.reverse());
        }
    }
    while m > 0
        invariant
            digits@.len() > 0,
            m > 0 ==> dec_digits(n as int) =~= dec_digits(m as int) + digits@.reverse(),
            m == 0 ==> dec_digits(n as int) =~= digits@.reverse(),
        decreases m,
    {
        let d: u8 = (m % 10) as u8 + 48;
        let m2: u64 = m / 10;
        proof {
            let dd = digits@;
            assert(dd.push(d).reverse() =~= seq![d] + dd.reverse());
            if m2 > 0 {
                assert(dec_digits(m as int) == dec_digits(m as int / 10).push(d));
                assert(dec_digits(m2 as int) + (seq![d] + dd.reverse()) =~= (dec_digits(
                    m2 as int,
                ).push(d)) + dd.reverse());
            } else {
                assert(dec_digits(m as int) =~= seq![d]);
            }
        }
        digits.push(d);
        m = m2;
    }
    let mut out = String::new();
    let mut i: usize = digits.len();
    proof {
        assert(dec_str(n as int).take(0) =~= Seq::<char>::empty());
        assert(dec_str(n as int).len() == digits@.len());
    }
    while i > 0
        invariant
            0 <= i <= digits@.len(),
            dec_digits(n as int) == digits@.reverse(),
            out@ == dec_str(n as int).take(digits@.len() - i as int),
        decreases i,
    {
        let c: char = digits[i - 1] as char;
        proof {
            let len = digits@.len() as int;
            let ds = dec_str(n as int);
            assert(ds.len() == len);
            assert(dec_digits(n as int)[len - (i as int)] == digits@[i as int - 1]);
            assert(ds[len - (i as int)] == digits@[i as int - 1] as char);
            assert(ds.take(len - (i as int) + 1) =~= ds.take(len - (i as int)).push(
                ds[len - (i as int)],
            ));
        }
        out.push(c);
        i = i - 1;
    }
    proof {
        assert(dec_str(n as int).take(digits@.len() as int) =~= dec_str(n as int));
    }
    out
}

/// A byte that passes through the byte-string URL encoding unescaped:
/// printable ASCII other than the percent sign itself.
pub open spec fn url_byte_safe(b: u8) -> bool {
    32 <= b < 127 && b != 37
}

/// Lowercase hexadecimal digit for `n < 16`.
pub open spec fn hex_char(n: u8) -> char {
    if n < 10 {
        (48 + n) as char
    } else {
        (87 + n) as char
    }
}

/// Encoding of one byte: itself when safe, else a `%xx` escape.
pub open spec fn url_encode_one(b: u8) -> Seq<char> {
    if url_byte_safe(b) {
        seq![b as char]
    } else {
        seq!['%', hex_char(b / 16), hex_char(b % 16)]
    }
}

/// The byte-string URL encoding of raw binary data, applied bytewise.
pub open spec fn spec_url_encode(s: Seq<u8>) -> Seq<char>
    decreases s.len(),
{
    if s.len() == 0 {
        Seq::empty()
    } else {
        url_encode_one(s[0]) + spec_url_encode(s.drop_first())
    }
}

proof fn lemma_url_encode_concat(a: Seq<u8>, b: Seq<u8>)
    ensures
        spec_url_encode(a + b) == spec_url_encode(a) + spec_url_encode(b),
    decreases a.len(),
{
    if a.len() == 0 {
        assert(a + b =~= b);
        assert(spec_url_encode(a) + spec_url_encode(b) =~= spec_url_encode(b));
    } else {
        lemma_url_encode_concat(a.drop_first(), b);
        assert((a + b).drop_first() =~= a.drop_first() + b);
        assert((a + b)[0] == a[0]);
        assert(url_encode_one(a[0]) + (spec_url_encode(a.drop_first()) + spec_url_encode(b))
            =~= (url_encode_one(a[0]) + spec_url_encode(a.drop_first())) + spec_url_encode(b));
    }
}

/// Percent-escape raw bytes for a tracker query: printable ASCII other than
/// `%` passes through, every other byte becomes a lowercase `%xx` escape.
pub fn url_encode_byte_string(data: Vec<u8>) -> (r: String)
    ensures
        r@ == spec_url_encode(data@),
{
    let mut out = String::new();
    let mut i: usize = 0;
    proof {
        assert(spec_url_encode(data@.take(0)) =~= Seq::<char>::empty());
    }
    while i < data.len()
        invariant
            0 <= i <= data@.len(),
            out@ == spec_url_encode(data@.take(i as int)),
        decreases data@.len() - i,
    {
        let b = data[i];
        proof {
            lemma_url_encode_concat(data@.take(i as int), seq![b]);
            assert(data@.take(i as int + 1) =~= data@.take(i as int) + seq![b]);
            assert(seq![b].drop_first() =~= Seq::<u8>::empty());
            assert(spec_url_encode(Seq::<u8>::empty()) =~= Seq::<char>::empty());
            assert(spec_url_encode(seq![b]) =~= url_encode_one(b));
        }
        if 32 <= b && b < 127 && b != 37 {
            out.push(b as char);
            proof {
                assert(out@ =~= spec_url_encode(data@.take(i as int)) + url_encode_one(b));
            }
        } else {
            let hi = b / 16;
            let lo = b % 16;
            out.push('%');
            out.push(
                if hi < 10 {
                    (48 + hi) as char
                } else {
                    (87 + hi) as char
                },
            );
            out.push(
                if lo < 10 {
                    (48 + lo) as char
                } else {
                    (87 + lo) as char
                },
            );
            proof {
                assert(out@ =~= spec_url_encode(data@.take(i as int)) + url_encode_one(b));
            }
        }
        i = i + 1;
    }
    proof {
        assert(data@.take(data@.len() as int) =~= data@);
    }
    out
}

/// A strict percent-decoder: a `%` introduces a two-hex-digit escape for one
/// byte; any other character stands for its own code point.
pub open spec fn hex_val(c: char) -> u8 {
    if '0' <= c <= '9' {
        (c as u8 - 48) as u8
    } else {
        (c as u8 - 87) as u8
    }
}

pub open spec fn spec_percent_decode(s: Seq<char>) -> Seq<u8>
    decreases s.len(),
{
    if s.len() == 0 {
        Seq::empty()
    } else if s[0] == '%' && s.len() >= 3 {
        seq![(hex_val(s[1]) * 16 + hex_val(s[2])) as u8] + spec_percent_decode(s.skip(3))
    } else {
        seq![s[0] as u8] + spec_percent_decode(s.drop_first())
    }
}

/// The byte-string URL encoding is inverted exactly by a strict
/// percent-decoder, for every input: safe bytes pass through and come back
/// unchanged, and every other byte round-trips through its `%xx` escape.
pub proof fn lemma_url_encode_round_trip(data: Seq<u8>)
    ensures
        spec_percent_decode(spec_url_encode(data)) == data,
    decreases data.len(),
{
    if data.len() == 0 {
        assert(spec_percent_decode(spec_url_encode(data)) =~= data);
    } else {
        let b = data[0];
        let e = spec_url_encode(data);
        let rest = spec_url_encode(data.drop_first());
        lemma_url_encode_round_trip(data.drop_first());
        if url_byte_safe(b) {
            assert(e[0] == b as char);
            assert(e[0] != '%');
            assert(e.drop_first() =~= rest);
            assert(spec_percent_decode(e) =~= data);
        } else {
            assert(e[0] == '%');
            assert(e.len() >= 3);
            assert(e[1] == hex_char(b / 16) && e[2] == hex_char(b % 16));
            assert(hex_val(hex_char(b / 16)) == b / 16);
            assert(hex_val(hex_char(b % 16)) == b % 16);
            assert(hex_val(e[1]) * 16 + hex_val(e[2]) == b);
            assert(e.skip(3) =~= rest);
            assert(spec_percent_decode(e) =~= data);
        }
    }
}

} // verus!
