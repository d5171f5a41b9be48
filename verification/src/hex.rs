//! Hex decoding.

use vstd::prelude::*;

verus! {

/// The value of a hex digit, in either case. Anything else counts as zero: the
/// caller sees to it that the input is hex.
pub open spec fn nibble(b: u8) -> u8 {
    if 48 <= b <= 57 {
        (b - 48) as u8
    } else if 97 <= b <= 102 {
        (b - 87) as u8
    } else if 65 <= b <= 70 {
        (b - 55) as u8
    } else {
        0
    }
}

/// The bytes that pairs of hex digits spell, high digit first.
pub open spec fn decoded(h: Seq<u8>) -> Seq<u8> {
    Seq::new(h.len() / 2, |k: int| (16 * nibble(h[2 * k]) + nibble(h[2 * k + 1])) as u8)
}

/// The bytes that the hex text `s` spells; nothing where a digit lacks its pair.
pub open spec fn decoded_text(s: Seq<char>) -> Option<Seq<u8>> {
    let h = vstd::utf8::encode_utf8(s);
    if h.len() % 2 == 0 {
        Some(decoded(h))
    } else {
        None
    }
}

/// The value of a hex digit.
fn nibble_of(b: u8) -> (n: u8)
    ensures
        n == nibble(b),
        n < 16,
{
    if 48 <= b && b <= 57 {
        b - 48
    } else if 97 <= b && b <= 102 {
        b - 87
    } else if 65 <= b && b <= 70 {
        b - 55
    } else {
        0
    }
}

/// Decode a hex string to bytes.
///
/// Returns `None` for odd-length input. Invalid hex digits count as zero.
pub fn hex_decode(hex: &str) -> (r: Option<Vec<u8>>)
    ensures
        match (r, decoded_text(hex@)) {
            (Some(bytes), Some(expected)) => bytes@ == expected,
            (None, None) => true,
            _ => false,
        },
{
    let h = hex.as_bytes();
    if h.len() % 2 != 0 {
        return None;
    }
    assert(decoded(h@).take(h@.len() as int / 2) =~= decoded(h@));
    Some(decode_inner(h, h.len() / 2))
}

/// Decode the first `out_len` pairs of hex digits.
pub fn decode_inner(h: &[u8], out_len: usize) -> (out: Vec<u8>)
    requires
        out_len <= h@.len() / 2,
    ensures
        out@ == decoded(h@).take(out_len as int),
{
    let mut out: Vec<u8> = Vec::new();
    let mut k: usize = 0;
    while k < out_len
        invariant
            k <= out_len <= h@.len() / 2,
            h@.len() == h.len(),
            out@ == decoded(h@).take(k as int),
        decreases out_len - k,
    {
        out.push(16 * nibble_of(h[2 * k]) + nibble_of(h[2 * k + 1]));
        assert(out@ =~= decoded(h@).take(k + 1));
        k = k + 1;
    }
    out
}

/// A byte with an ASCII letter put in upper case.
pub open spec fn upper(b: u8) -> u8 {
    if 97 <= b <= 122 {
        (b - 32) as u8
    } else {
        b
    }
}

/// Hex digits decode alike in upper and in lower case.
pub proof fn law_case_does_not_matter(h: Seq<u8>)
    ensures
        decoded(Seq::new(h.len(), |k: int| upper(h[k]))) == decoded(h),
{
    let u = Seq::new(h.len(), |k: int| upper(h[k]));
    assert forall|k: int| 0 <= k < decoded(h).len() implies decoded(u)[k] == decoded(h)[k] by {
        assert(nibble(upper(h[2 * k])) == nibble(h[2 * k]));
        assert(nibble(upper(h[2 * k + 1])) == nibble(h[2 * k + 1]));
    }
    assert(decoded(u) =~= decoded(h));
}

/// The lower-case digit for a value of four bits: `0` to `9`, then `a` to `f`.
pub open spec fn hex_digit(n: int) -> char {
    if n < 10 {
        (48 + n) as char
    } else {
        (87 + n) as char
    }
}

/// Bytes in hex, two digits for each.
pub open spec fn spelled(bytes: Seq<u8>) -> Seq<char>
    decreases bytes.len(),
{
    if bytes.len() == 0 {
        Seq::empty()
    } else {
        seq![hex_digit(bytes[0] as int / 16), hex_digit(bytes[0] as int % 16)] + spelled(
            bytes.drop_first(),
        )
    }
}

/// Where the digits of each byte stand.
proof fn lemma_spelled(bytes: Seq<u8>)
    ensures
        spelled(bytes).len() == 2 * bytes.len(),
        forall|k: int|
            #![trigger bytes[k]]
            0 <= k < bytes.len() ==> spelled(bytes)[2 * k] == hex_digit(bytes[k] as int / 16)
                && spelled(bytes)[2 * k + 1] == hex_digit(bytes[k] as int % 16),
    decreases bytes.len(),
{
    if bytes.len() > 0 {
        let rest = bytes.drop_first();
        lemma_spelled(rest);
        assert forall|k: int|
            #![trigger bytes[k]]
            0 <= k < bytes.len() implies spelled(bytes)[2 * k] == hex_digit(bytes[k] as int / 16)
            && spelled(bytes)[2 * k + 1] == hex_digit(bytes[k] as int % 16) by {
            if k > 0 {
                assert(rest[k - 1] == bytes[k]);
                assert(spelled(bytes)[2 * k] == spelled(rest)[2 * (k - 1)]);
                assert(spelled(bytes)[2 * k + 1] == spelled(rest)[2 * (k - 1) + 1]);
            }
        }
    }
}

/// Bytes that are spelled in hex decode to themselves.
pub proof fn law_hex_reads_back(bytes: Seq<u8>)
    ensures
        decoded_text(spelled(bytes)) == Some(bytes),
{
    let s = spelled(bytes);
    lemma_spelled(bytes);
    assert(vstd::utf8::is_ascii_chars(s)) by {
        assert forall|i: int| 0 <= i < s.len() implies '\0' <= #[trigger] s[i] <= '\u{7f}' by {
            let k = i / 2;
            let b = bytes[k];
            assert(i == 2 * k || i == 2 * k + 1);
        }
    }
    vstd::utf8::is_ascii_chars_encode_utf8(s);
    let h = vstd::utf8::encode_utf8(s);
    assert(h.len() == 2 * bytes.len());
    assert forall|k: int| 0 <= k < bytes.len() implies decoded(h)[k] == bytes[k] by {
        let b = bytes[k] as int;
        assert(s[2 * k] as u8 == h[2 * k]);
        assert(s[2 * k + 1] as u8 == h[2 * k + 1]);
        assert(nibble(h[2 * k]) == b / 16);
        assert(nibble(h[2 * k + 1]) == b % 16);
    }
    assert(decoded(h) =~= bytes);
}

/// A text whose length in bytes is odd spells nothing; any other spells half as many
/// bytes, each by its own two digits: those of one pair do not touch the others.
pub proof fn law_pairs_decode_apart(a: Seq<u8>, b: Seq<u8>)
    requires
        a.len() % 2 == 0,
    ensures
        decoded(a + b) == decoded(a) + decoded(b),
        decoded(a).len() == a.len() / 2,
{
    assert forall|k: int| 0 <= k < decoded(a + b).len() implies decoded(a + b)[k] == (decoded(a)
        + decoded(b))[k] by {
        let n = a.len() as int / 2;
        if k < n {
            assert((a + b)[2 * k] == a[2 * k] && (a + b)[2 * k + 1] == a[2 * k + 1]);
        } else {
            assert((a + b)[2 * k] == b[2 * (k - n)] && (a + b)[2 * k + 1] == b[2 * (k - n) + 1]);
        }
    }
    assert(decoded(a + b) =~= decoded(a) + decoded(b));
}

/// The sixteen digits have the values from 0 to 15, in lower and in upper case alike, and
/// no other byte has a value. A text with an odd number of bytes spells nothing.
pub proof fn law_digits_have_their_values(d: u8, b: u8, s: Seq<char>)
    requires
        d < 16,
    ensures
        d < 10 ==> nibble((48 + d) as u8) == d,
        d >= 10 ==> nibble((97 + (d - 10)) as u8) == d,
        d >= 10 ==> nibble((65 + (d - 10)) as u8) == d,
        b < 48 || 57 < b < 65 || 70 < b < 97 || 102 < b ==> nibble(b) == 0,
        decoded_text(s) is None <==> vstd::utf8::encode_utf8(s).len() % 2 == 1,
{
}

} // verus!
