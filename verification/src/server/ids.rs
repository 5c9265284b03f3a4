//! User ids: 128-bit UUIDs, written and read through the uuid crate.
use vstd::prelude::*;
use vstd::string::StringSliceAdditionalSpecFns;
use vstd::utf8::{encode_utf8, is_ascii_chars, is_ascii_chars_encode_utf8};

verus! {

/// The lower-case hexadecimal digit for a value below 16.
pub open spec fn hex_digit(v: int) -> char {
    if v < 10 {
        (v + 48) as char
    } else {
        (v - 10 + 97) as char
    }
}

/// The `k` low-order hexadecimal digits of `n`, most significant first.
pub open spec fn hex_of(n: nat, k: nat) -> Seq<char>
    decreases k,
{
    if k == 0 {
        Seq::<char>::empty()
    } else {
        hex_of(n / 16, (k - 1) as nat).push(hex_digit((n % 16) as int))
    }
}

/// The hyphenated lower-case text of a UUID: 8-4-4-4-12 hexadecimal digits.
pub open spec fn uuid_text(v: u128) -> Seq<char> {
    let h = hex_of(v as nat, 32);
    h.subrange(0, 8) + seq!['-'] + h.subrange(8, 12) + seq!['-'] + h.subrange(12, 16) + seq!['-']
        + h.subrange(16, 20) + seq!['-'] + h.subrange(20, 32)
}

/// The value of an ASCII hexadecimal digit of either case.
pub open spec fn hex_byte_value(b: u8) -> Option<nat> {
    if 48 <= b <= 57 {
        Some((b - 48) as nat)
    } else if 97 <= b <= 102 {
        Some((b - 87) as nat)
    } else if 65 <= b <= 70 {
        Some((b - 55) as nat)
    } else {
        None
    }
}

/// The number that a run of hexadecimal digits denotes, if all are digits.
pub open spec fn hex_value(s: Seq<u8>) -> Option<nat>
    decreases s.len(),
{
    if s.len() == 0 {
        Some(0)
    } else {
        match (hex_value(s.drop_last()), hex_byte_value(s.last())) {
            (Some(a), Some(d)) => Some(a * 16 + d),
            _ => None,
        }
    }
}

/// The value of 36 bytes in the 8-4-4-4-12 layout with hyphens.
pub open spec fn hyphenated_value(s: Seq<u8>) -> Option<nat> {
    if s.len() == 36 && s[8] == 45 && s[13] == 45 && s[18] == 45 && s[23] == 45 {
        hex_value(
            s.subrange(0, 8) + s.subrange(9, 13) + s.subrange(14, 18) + s.subrange(19, 23)
                + s.subrange(24, 36),
        )
    } else {
        None
    }
}

/// Whether bytes are `urn:uuid:` in any ASCII case.
pub open spec fn is_urn_prefix(p: Seq<u8>) -> bool {
    p.len() == 9 && forall|i: int|
        0 <= i < 9 ==> #[trigger] ascii_lower_byte(p[i]) == seq![117u8, 114, 110, 58, 117, 117, 105, 100, 58][i]
}

pub open spec fn ascii_lower_byte(b: u8) -> u8 {
    if 65 <= b <= 90 {
        (b + 32) as u8
    } else {
        b
    }
}

/// The UUID that `Uuid::parse_str` reads from the bytes of a text: 32
/// hexadecimal digits; 36 in the hyphenated layout; the same in braces;
/// or the hyphenated layout after `urn:uuid:`.
pub open spec fn uuid_from_text(b: Seq<u8>) -> Option<nat> {
    if b.len() == 32 {
        hex_value(b)
    } else if b.len() == 36 {
        hyphenated_value(b)
    } else if b.len() == 38 && b[0] == 123 && b[37] == 125 {
        hyphenated_value(b.subrange(1, 37))
    } else if b.len() == 45 && is_urn_prefix(b.subrange(0, 9)) {
        hyphenated_value(b.subrange(9, 45))
    } else {
        None
    }
}

/// Calls `Uuid::from_u128(v).to_string()` (uuid crate), which writes the
/// hyphenated lower-case form.
#[verifier::external_body]
pub(crate) fn uuid_to_string(v: u128) -> (r: String)
    ensures
        r@ == uuid_text(v),
{
    uuid::Uuid::from_u128(v).to_string()
}

/// Calls `Uuid::parse_str` (uuid crate) and takes the value with
/// `as_u128`; the contract restates the parser's accepted layouts over the
/// text's UTF-8 bytes.
#[verifier::external_body]
pub(crate) fn uuid_parse(s: &str) -> (r: Option<u128>)
    ensures
        match uuid_from_text(s.spec_bytes()) {
            Some(v) => r == Some(v as u128),
            None => r is None,
        },
{
    match uuid::Uuid::parse_str(s) {
        Ok(u) => Some(u.as_u128()),
        Err(_) => None,
    }
}

pub open spec fn pow16(k: nat) -> nat
    decreases k,
{
    if k == 0 {
        1
    } else {
        16 * pow16((k - 1) as nat)
    }
}

pub open spec fn as_bytes(s: Seq<char>) -> Seq<u8> {
    s.map_values(|c: char| c as u8)
}

proof fn lemma_hex_digit(d: int)
    requires
        0 <= d < 16,
    ensures
        '\0' <= hex_digit(d) <= '\u{7f}',
        hex_digit(d) != '-',
        hex_byte_value(hex_digit(d) as u8) == Some(d as nat),
{
}

proof fn lemma_hex_round(n: nat, k: nat)
    requires
        n < pow16(k),
    ensures
        hex_of(n, k).len() == k,
        is_ascii_chars(hex_of(n, k)),
        forall|i: int| 0 <= i < k ==> #[trigger] hex_of(n, k)[i] != '-',
        hex_value(as_bytes(hex_of(n, k))) == Some(n),
    decreases k,
{
    if k == 0 {
        assert(pow16(0) == 1);
        assert(as_bytes(hex_of(n, k)) =~= Seq::<u8>::empty());
    } else {
        let p = pow16((k - 1) as nat);
        assert(n / 16 < p) by (nonlinear_arith)
            requires
                n < 16 * p,
        ;
        lemma_hex_round(n / 16, (k - 1) as nat);
        let t = hex_of(n / 16, (k - 1) as nat);
        let c = hex_digit((n % 16) as int);
        lemma_hex_digit((n % 16) as int);
        assert(hex_of(n, k) == t.push(c));
        assert forall|i: int| 0 <= i < k implies #[trigger] hex_of(n, k)[i] != '-' by {
            if i < k - 1 {
                assert(hex_of(n, k)[i] == t[i]);
            }
        }
        let b = as_bytes(t.push(c));
        assert(b.drop_last() =~= as_bytes(t));
        assert(b.last() == c as u8);
        assert(n == (n / 16) * 16 + n % 16) by (nonlinear_arith);
    }
}

/// The text of a UUID is read back as the same UUID.
pub proof fn law_uuid_text_parses_back(v: u128)
    ensures
        uuid_from_text(encode_utf8(uuid_text(v))) == Some(v as nat),
{
    reveal_with_fuel(pow16, 33);
    assert(pow16(32) == 0x1_0000_0000_0000_0000_0000_0000_0000_0000);
    lemma_hex_round(v as nat, 32);
    let h = hex_of(v as nat, 32);
    let t = uuid_text(v);
    assert(t.len() == 36);
    assert(is_ascii_chars(t)) by {
        assert forall|i: int| 0 <= i < t.len() implies '\0' <= #[trigger] t[i] <= '\u{7f}' by {
            if i < 8 {
                assert(t[i] == h[i]);
            } else if 8 < i < 13 {
                assert(t[i] == h[i - 1]);
            } else if 13 < i < 18 {
                assert(t[i] == h[i - 2]);
            } else if 18 < i < 23 {
                assert(t[i] == h[i - 3]);
            } else if 23 < i {
                assert(t[i] == h[i - 4]);
            }
        }
    }
    is_ascii_chars_encode_utf8(t);
    let b = encode_utf8(t);
    assert(b.len() == 36);
    assert(b[8] == 45 && b[13] == 45 && b[18] == 45 && b[23] == 45) by {
        assert(t[8] == '-' && t[13] == '-' && t[18] == '-' && t[23] == '-');
    }
    let joined = b.subrange(0, 8) + b.subrange(9, 13) + b.subrange(14, 18) + b.subrange(19, 23)
        + b.subrange(24, 36);
    assert forall|i: int| 0 <= i < 32 implies joined[i] == #[trigger] as_bytes(h)[i] by {
        if i < 8 {
            assert(joined[i] == b[i] && t[i] == h[i]);
        } else if i < 12 {
            assert(joined[i] == b[i + 1] && t[i + 1] == h[i]);
        } else if i < 16 {
            assert(joined[i] == b[i + 2] && t[i + 2] == h[i]);
        } else if i < 20 {
            assert(joined[i] == b[i + 3] && t[i + 3] == h[i]);
        } else {
            assert(joined[i] == b[i + 4] && t[i + 4] == h[i]);
        }
    }
    assert(joined =~= as_bytes(h));
}

} // verus!
