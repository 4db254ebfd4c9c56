//! Content hashes, in hexadecimal.

use vstd::prelude::*;
use vstd::utf8::encode_utf8;

verus! {

/// The SHA-256 digest of the bytes, as the `sha2` crate computes it.
pub uninterp spec fn sha256(bytes: Seq<u8>) -> Seq<u8>;

/// `sha2::Sha256::digest`: always 32 bytes, the same for the same bytes.
#[verifier::external_body]
fn digest(bytes: &[u8]) -> (r: Vec<u8>)
    ensures
        r@ == sha256(bytes@),
        r@.len() == 32,
{
    <sha2::Sha256 as sha2::Digest>::digest(bytes).to_vec()
}

/// A hexadecimal digit; `ten` is the letter for ten.
pub open spec fn hex_digit(n: int, ten: char) -> char {
    if n < 10 {
        (('0' as u32) + n) as char
    } else {
        ((ten as u32) + n - 10) as char
    }
}

/// Two hexadecimal digits.
pub open spec fn hex_byte(b: u8, ten: char) -> Seq<char> {
    seq![hex_digit(b as int / 16, ten), hex_digit(b as int % 16, ten)]
}

/// The bytes in hexadecimal, in lower case.
pub open spec fn hex_text(bytes: Seq<u8>) -> Seq<char>
    decreases bytes.len(),
{
    if bytes.len() == 0 {
        seq![]
    } else {
        hex_text(bytes.drop_last()) + hex_byte(bytes.last(), 'a')
    }
}

/// Append a byte as two hexadecimal digits.
pub fn push_hex(out: &mut String, b: u8, upper: bool)
    ensures
        final(out)@ == old(out)@ + hex_byte(
            b,
            if upper {
                'A'
            } else {
                'a'
            },
        ),
{
    let high: u8 = b / 16;
    let low: u8 = b % 16;
    let ten: u8 = if upper {
        65
    } else {
        97
    };
    out.push(
        (if high < 10 {
            48 + high
        } else {
            ten + (high - 10)
        }) as char,
    );
    out.push(
        (if low < 10 {
            48 + low
        } else {
            ten + (low - 10)
        }) as char,
    );
    assert(out@ =~= old(out)@ + hex_byte(
        b,
        if upper {
            'A'
        } else {
            'a'
        },
    ));
}

/// The digest of a text's UTF-8 bytes, in hexadecimal.
pub open spec fn text_digest(text: Seq<char>) -> Seq<char> {
    hex_text(sha256(encode_utf8(text)))
}

/// The digest of a text's UTF-8 bytes, in hexadecimal.
pub fn hex_digest(text: &str) -> (r: String)
    ensures
        r@ == text_digest(text@),
        r@.len() == 64,
{
    let bytes = digest(text.as_bytes());
    let mut out = String::new();
    let mut i: usize = 0;
    assert(bytes@.take(0) =~= seq![]);
    while i < bytes.len()
        invariant
            i <= bytes@.len(),
            out@ == hex_text(bytes@.take(i as int)),
            out@.len() == 2 * i,
        decreases bytes@.len() - i,
    {
        assert(bytes@.take(i + 1).drop_last() =~= bytes@.take(i as int));
        push_hex(&mut out, bytes[i], false);
        i += 1;
    }
    assert(bytes@.take(i as int) =~= bytes@);
    out
}

/// The number that a hexadecimal digit stands for, in either case.
pub open spec fn hex_value(c: char) -> int {
    if '0' <= c <= '9' {
        c as int - '0' as int
    } else if 'a' <= c <= 'f' {
        c as int - 'a' as int + 10
    } else {
        c as int - 'A' as int + 10
    }
}

/// A byte reads back from its two digits, the high one first; the digits above
/// nine are lower-case letters from `a` on, or capitals from `A` on.
pub proof fn bytes_read_back_from_their_digits(b: u8)
    ensures
        hex_byte(b, 'a').len() == 2,
        hex_value(hex_byte(b, 'a')[0]) * 16 + hex_value(hex_byte(b, 'a')[1]) == b,
        forall|i: int|
            0 <= i < 2 ==> '0' <= #[trigger] hex_byte(b, 'a')[i] <= '9' || 'a' <= hex_byte(
                b,
                'a',
            )[i] <= 'f',
        hex_byte(b, 'A').len() == 2,
        hex_value(hex_byte(b, 'A')[0]) * 16 + hex_value(hex_byte(b, 'A')[1]) == b,
        forall|i: int|
            0 <= i < 2 ==> '0' <= #[trigger] hex_byte(b, 'A')[i] <= '9' || 'A' <= hex_byte(
                b,
                'A',
            )[i] <= 'F',
{
    let high = b as int / 16;
    let low = b as int % 16;
    assert(hex_digit(high, 'a') as int == if high < 10 {
        48 + high
    } else {
        87 + high
    });
    assert(hex_digit(low, 'a') as int == if low < 10 {
        48 + low
    } else {
        87 + low
    });
    assert(hex_digit(high, 'A') as int == if high < 10 {
        48 + high
    } else {
        55 + high
    });
    assert(hex_digit(low, 'A') as int == if low < 10 {
        48 + low
    } else {
        55 + low
    });
}

/// The hexadecimal text of bytes has two digits for each byte, in the order of
/// the bytes.
pub proof fn every_byte_has_its_digits(bytes: Seq<u8>, i: int)
    requires
        0 <= i < bytes.len(),
    ensures
        hex_text(bytes).len() == 2 * bytes.len(),
        hex_value(hex_text(bytes)[2 * i]) * 16 + hex_value(hex_text(bytes)[2 * i + 1]) == bytes[i],
    decreases bytes.len(),
{
    let front = bytes.drop_last();
    bytes_read_back_from_their_digits(bytes.last());
    if front.len() > 0 {
        let k = if i < front.len() {
            i
        } else {
            0
        };
        every_byte_has_its_digits(front, k);
    }
    assert(hex_text(front).len() == 2 * front.len());
    if i < front.len() {
        assert(front[i] == bytes[i]);
    }
}

} // verus!
