use vstd::prelude::*;

verus! {

/// Why a text is not the hexadecimal form of a byte string.
#[derive(Clone, Copy, Debug, PartialEq, Eq, Structural)]
pub enum HexError {
    /// The text has an odd number of characters.
    OddLength,
    /// The text has an even length, but holds a character that is no hex digit.
    InvalidDigit,
}

/// The lowercase hexadecimal digit for a value below sixteen.
pub open spec fn hex_digit(v: int) -> u8 {
    if v < 10 {
        (48 + v) as u8
    } else {
        (87 + v) as u8
    }
}

/// `0-9`, `a-f` or `A-F`.
pub open spec fn is_hex_digit(c: u8) -> bool {
    (48 <= c <= 57) || (97 <= c <= 102) || (65 <= c <= 70)
}

/// The value of a hexadecimal digit, in either case.
pub open spec fn hex_value(c: u8) -> int {
    if 48 <= c <= 57 {
        c - 48
    } else if 97 <= c <= 102 {
        c - 87
    } else {
        c - 55
    }
}

/// Two lowercase digits per byte, high nibble first.
pub open spec fn hex_encoding(src: Seq<u8>) -> Seq<u8> {
    Seq::new(
        2 * src.len(),
        |i: int|
            if i % 2 == 0 {
                hex_digit(src[i / 2] as int / 16)
            } else {
                hex_digit(src[i / 2] as int % 16)
            },
    )
}

/// An even number of hex digits.
pub open spec fn is_hex_text(s: Seq<u8>) -> bool {
    &&& s.len() % 2 == 0
    &&& forall|i: int| 0 <= i < s.len() ==> is_hex_digit(#[trigger] s[i])
}

/// The bytes that a hex text stands for: one per pair of digits.
pub open spec fn hex_decoding(s: Seq<u8>) -> Seq<u8> {
    Seq::new(s.len() / 2, |i: int| (16 * hex_value(s[2 * i]) + hex_value(s[2 * i + 1])) as u8)
}

/// The number that a string of hex digits stands for, most significant first.
pub open spec fn hex_number(s: Seq<u8>) -> nat
    decreases s.len(),
{
    if s.len() == 0 {
        0
    } else {
        (16 * hex_number(s.drop_last()) + hex_value(s.last())) as nat
    }
}

pub open spec fn pow16(n: nat) -> nat
    decreases n,
{
    if n == 0 {
        1
    } else {
        16 * pow16((n - 1) as nat)
    }
}

pub proof fn lemma_hex_value_bounds(c: u8)
    requires
        is_hex_digit(c),
    ensures
        0 <= hex_value(c) < 16,
{
}

pub proof fn lemma_hex_digit_value(v: int)
    requires
        0 <= v < 16,
    ensures
        is_hex_digit(hex_digit(v)),
        hex_value(hex_digit(v)) == v,
{
}

pub proof fn lemma_hex_number_bound(s: Seq<u8>)
    requires
        forall|i: int| 0 <= i < s.len() ==> is_hex_digit(#[trigger] s[i]),
    ensures
        hex_number(s) < pow16(s.len()),
    decreases s.len(),
{
    if s.len() > 0 {
        let p = s.drop_last();
        assert forall|i: int| 0 <= i < p.len() implies is_hex_digit(#[trigger] p[i]) by {
            assert(p[i] == s[i]);
        }
        lemma_hex_number_bound(p);
        lemma_hex_value_bounds(s.last());
        let h = hex_number(p);
        let q = pow16(p.len());
        let d = hex_value(s.last());
        assert(16 * h + d < 16 * q) by (nonlinear_arith)
            requires
                h < q,
                0 <= d < 16,
        ;
    }
}

/// Hexadecimal decoding undoes hexadecimal encoding, for every byte string.
pub proof fn lemma_hex_round_trip(b: Seq<u8>)
    ensures
        is_hex_text(hex_encoding(b)),
        hex_decoding(hex_encoding(b)) == b,
{
    let e = hex_encoding(b);
    assert forall|i: int| 0 <= i < e.len() implies is_hex_digit(#[trigger] e[i]) by {
        lemma_hex_digit_value(b[i / 2] as int / 16);
        lemma_hex_digit_value(b[i / 2] as int % 16);
    }
    assert forall|i: int| 0 <= i < b.len() implies #[trigger] hex_decoding(e)[i] == b[i] by {
        assert((2 * i) / 2 == i);
        assert((2 * i + 1) / 2 == i);
        assert((2 * i) % 2 == 0);
        assert((2 * i + 1) % 2 == 1);
        lemma_hex_digit_value(b[i] as int / 16);
        lemma_hex_digit_value(b[i] as int % 16);
    }
    assert(hex_decoding(e) =~= b);
}

/// The lowercase digit for a nibble.
fn nibble_char(v: u8) -> (r: u8)
    requires
        v < 16,
    ensures
        r == hex_digit(v as int),
{
    if v < 10 {
        48 + v
    } else {
        87 + v
    }
}

/// The value of a hex digit, or `None` for any other character.
pub fn hex_digit_value(c: u8) -> (r: Option<u8>)
    ensures
        match r {
            Some(v) => is_hex_digit(c) && v as int == hex_value(c) && v < 16,
            None => !is_hex_digit(c),
        },
{
    if 48 <= c && c <= 57 {
        Some(c - 48)
    } else if 97 <= c && c <= 102 {
        Some(c - 87)
    } else if 65 <= c && c <= 70 {
        Some(c - 55)
    } else {
        None
    }
}

/// Number of bytes that the hexadecimal form of `src` takes.
pub fn hex_encoded_len(src: &[u8]) -> (r: usize)
    requires
        src@.len() <= usize::MAX / 2,
    ensures
        r == hex_encoding(src@).len(),
{
    2 * src.len()
}

/// Appends the lowercase hexadecimal form of `src` to `buf`.
pub fn extend_from_hex_encoded(buf: &mut Vec<u8>, src: &[u8])
    ensures
        final(buf)@ == old(buf)@ + hex_encoding(src@),
{
    let ghost start = buf@;
    let mut i: usize = 0;
    while i < src.len()
        invariant
            0 <= i <= src.len(),
            buf@ == start + hex_encoding(src@.take(i as int)),
        decreases src.len() - i,
    {
        let b = src[i];
        buf.push(nibble_char(b / 16));
        buf.push(nibble_char(b % 16));
        proof {
            let before = hex_encoding(src@.take(i as int));
            let after = hex_encoding(src@.take(i + 1));
            assert(after =~= before + seq![hex_digit(b as int / 16), hex_digit(b as int % 16)]) by {
                assert forall|k: int| 0 <= k < after.len() implies #[trigger] after[k] == (before
                    + seq![hex_digit(b as int / 16), hex_digit(b as int % 16)])[k] by {
                    assert(src@.take(i + 1)[k / 2] == src@[k / 2]);
                    if k < 2 * i {
                        assert(src@.take(i as int)[k / 2] == src@[k / 2]);
                    }
                }
            }
        }
        i += 1;
    }
    assert(src@.take(src@.len() as int) =~= src@);
}

/// The lowercase hexadecimal form of `src`.
pub fn hex_encode(src: &[u8]) -> (r: Vec<u8>)
    ensures
        r@ == hex_encoding(src@),
{
    let mut out: Vec<u8> = Vec::new();
    extend_from_hex_encoded(&mut out, src);
    assert(out@ =~= hex_encoding(src@));
    out
}

/// The bytes that a hex text stands for; digits of either case are read.
pub fn hex_decode(src: &[u8]) -> (r: Result<Vec<u8>, HexError>)
    ensures
        match r {
            Ok(v) => is_hex_text(src@) && v@ == hex_decoding(src@),
            Err(e) => !is_hex_text(src@) && (e == HexError::OddLength <==> src@.len() % 2 == 1),
        },
{
    if src.len() % 2 == 1 {
        return Err(HexError::OddLength);
    }
    let mut out: Vec<u8> = Vec::new();
    let mut i: usize = 0;
    while i < src.len()
        invariant
            src@.len() % 2 == 0,
            0 <= i <= src.len(),
            i % 2 == 0,
            out@.len() == i / 2,
            forall|k: int| 0 <= k < i ==> is_hex_digit(#[trigger] src@[k]),
            forall|k: int| 0 <= k < i / 2 ==> #[trigger] out@[k] == hex_decoding(src@)[k],
        decreases src.len() - i,
    {
        let hi = match hex_digit_value(src[i]) {
            Some(v) => v,
            None => {
                return Err(HexError::InvalidDigit);
            },
        };
        let lo = match hex_digit_value(src[i + 1]) {
            Some(v) => v,
            None => {
                return Err(HexError::InvalidDigit);
            },
        };
        out.push(16 * hi + lo);
        proof {
            assert(2 * (i / 2) == i);
        }
        i += 2;
    }
    assert(out@ =~= hex_decoding(src@));
    Ok(out)
}

} // verus!
