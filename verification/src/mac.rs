//! Hardware (MAC) addresses: exactly six bytes, with the colon-separated
//! hex-pair text form.

use vstd::prelude::*;
use vstd::string::StringExecFns;

verus! {

/// A hardware address of exactly six bytes. Equality is byte-wise.
#[derive(Debug, Clone, Copy, Eq, Hash)]
pub struct MacAddress {
    pub bytes: [u8; 6],
}

impl View for MacAddress {
    type V = Seq<u8>;

    open spec fn view(&self) -> Seq<u8> {
        self.bytes@
    }
}

impl PartialEq for MacAddress {
    fn eq(&self, other: &MacAddress) -> (r: bool) {
        let r = self.bytes[0] == other.bytes[0] && self.bytes[1] == other.bytes[1]
            && self.bytes[2] == other.bytes[2] && self.bytes[3] == other.bytes[3] && self.bytes[4]
            == other.bytes[4] && self.bytes[5] == other.bytes[5];
        proof {
            if r {
                assert(self.bytes@ =~= other.bytes@);
            }
        }
        r
    }
}

impl vstd::std_specs::cmp::PartialEqSpecImpl for MacAddress {
    open spec fn obeys_eq_spec() -> bool {
        true
    }

    open spec fn eq_spec(&self, other: &MacAddress) -> bool {
        self@ == other@
    }
}

/// Whether a character is a hexadecimal digit, of either case.
pub open spec fn is_hex_digit(c: char) -> bool {
    ('0' as int <= c as int <= '9' as int) || ('A' as int <= c as int <= 'F' as int) || (
    'a' as int <= c as int <= 'f' as int)
}

/// The value of a hexadecimal digit character.
pub open spec fn hex_val(c: char) -> int {
    if '0' as int <= c as int <= '9' as int {
        c as int - '0' as int
    } else if 'A' as int <= c as int <= 'F' as int {
        c as int - 'A' as int + 10
    } else {
        c as int - 'a' as int + 10
    }
}

/// The uppercase hexadecimal digit character for a value below 16.
pub open spec fn hex_digit_char(n: int) -> char {
    if n == 0 {
        '0'
    } else if n == 1 {
        '1'
    } else if n == 2 {
        '2'
    } else if n == 3 {
        '3'
    } else if n == 4 {
        '4'
    } else if n == 5 {
        '5'
    } else if n == 6 {
        '6'
    } else if n == 7 {
        '7'
    } else if n == 8 {
        '8'
    } else if n == 9 {
        '9'
    } else if n == 10 {
        'A'
    } else if n == 11 {
        'B'
    } else if n == 12 {
        'C'
    } else if n == 13 {
        'D'
    } else if n == 14 {
        'E'
    } else {
        'F'
    }
}

/// Whether a character sequence has the text form of a hardware address:
/// six hex pairs, of either case, separated by single colons.
pub open spec fn mac_text_form(s: Seq<char>) -> bool {
    &&& s.len() == 17
    &&& forall|j: int|
        0 <= j < 6 ==> is_hex_digit(#[trigger] s[3 * j]) && is_hex_digit(s[3 * j + 1])
    &&& forall|j: int| 0 <= j < 5 ==> #[trigger] s[3 * j + 2] == ':'
}

/// The six bytes denoted by a character sequence in hardware-address form.
pub open spec fn mac_text_bytes(s: Seq<char>) -> Seq<u8> {
    Seq::new(6, |j: int| (hex_val(s[3 * j]) * 16 + hex_val(s[3 * j + 1])) as u8)
}

/// The canonical text form of six bytes: uppercase hex pairs, colon-separated.
pub open spec fn mac_text(b: Seq<u8>) -> Seq<char> {
    seq![
        hex_digit_char(b[0] as int / 16),
        hex_digit_char(b[0] as int % 16),
        ':',
        hex_digit_char(b[1] as int / 16),
        hex_digit_char(b[1] as int % 16),
        ':',
        hex_digit_char(b[2] as int / 16),
        hex_digit_char(b[2] as int % 16),
        ':',
        hex_digit_char(b[3] as int / 16),
        hex_digit_char(b[3] as int % 16),
        ':',
        hex_digit_char(b[4] as int / 16),
        hex_digit_char(b[4] as int % 16),
        ':',
        hex_digit_char(b[5] as int / 16),
        hex_digit_char(b[5] as int % 16),
    ]
}

impl MacAddress {
    /// Build a hardware address from six bytes.
    pub fn new(bytes: [u8; 6]) -> (r: Self)
        ensures
            r@ == bytes@,
    {
        MacAddress { bytes }
    }

    /// Take the first six bytes of a slice; a shorter slice gives nothing.
    pub fn from_slice(slice: &[u8]) -> (r: Option<Self>)
        ensures
            match r {
                Some(mac) => slice@.len() >= 6 && mac@ == slice@.subrange(0, 6),
                None => slice@.len() < 6,
            },
    {
        if slice.len() >= 6 {
            let bytes: [u8; 6] = [slice[0], slice[1], slice[2], slice[3], slice[4], slice[5]];
            proof {
                assert(bytes@ =~= slice@.subrange(0, 6));
            }
            Some(MacAddress { bytes })
        } else {
            None
        }
    }

    /// The underlying six bytes.
    pub fn as_bytes(&self) -> (r: &[u8; 6])
        ensures
            r@ == self@,
    {
        &self.bytes
    }

    /// The canonical text form: uppercase hex pairs separated by colons,
    /// `AA:BB:CC:DD:EE:FF`.
    pub fn to_string(&self) -> (r: String)
        ensures
            r@ == mac_text(self@),
    {
        let mut s = String::new();
        s.append(hex_pair_str(self.bytes[0] / 16));
        s.append(hex_pair_str(self.bytes[0] % 16));
        s.append(":");
        s.append(hex_pair_str(self.bytes[1] / 16));
        s.append(hex_pair_str(self.bytes[1] % 16));
        s.append(":");
        s.append(hex_pair_str(self.bytes[2] / 16));
        s.append(hex_pair_str(self.bytes[2] % 16));
        s.append(":");
        s.append(hex_pair_str(self.bytes[3] / 16));
        s.append(hex_pair_str(self.bytes[3] % 16));
        s.append(":");
        s.append(hex_pair_str(self.bytes[4] / 16));
        s.append(hex_pair_str(self.bytes[4] % 16));
        s.append(":");
        s.append(hex_pair_str(self.bytes[5] / 16));
        s.append(hex_pair_str(self.bytes[5] % 16));
        proof {
            reveal_strlit(":");
            assert(s@ =~= mac_text(self@));
        }
        s
    }

    /// Parse the colon-separated hex-pair text form, of either case;
    /// anything else gives nothing.
    pub fn from_string(s: &str) -> (r: Option<Self>)
        ensures
            match r {
                Some(mac) => mac_text_form(s@) && mac@ == mac_text_bytes(s@),
                None => !mac_text_form(s@),
            },
    {
        let n = s.unicode_len();
        if n != 17 {
            return None;
        }
        let mut bytes: [u8; 6] = [0; 6];
        let mut j: usize = 0;
        while j < 6
            invariant
                j <= 6,
                s@.len() == 17,
                forall|k: int|
                    0 <= k < j ==> is_hex_digit(#[trigger] s@[3 * k]) && is_hex_digit(
                        s@[3 * k + 1],
                    ),
                forall|k: int| 0 <= k < j && k < 5 ==> #[trigger] s@[3 * k + 2] == ':',
                forall|k: int|
                    0 <= k < j ==> #[trigger] bytes@[k] == (hex_val(s@[3 * k]) * 16 + hex_val(
                        s@[3 * k + 1],
                    )) as u8,
            decreases 6 - j,
        {
            let hi = match hex_digit_val(s.get_char(3 * j)) {
                Some(v) => v,
                None => {
                    return None;
                },
            };
            let lo = match hex_digit_val(s.get_char(3 * j + 1)) {
                Some(v) => v,
                None => {
                    return None;
                },
            };
            if j < 5 {
                if s.get_char(3 * j + 2) != ':' {
                    return None;
                }
            }
            bytes[j] = hi * 16 + lo;
            j = j + 1;
        }
        let mac = MacAddress { bytes };
        proof {
            assert(mac_text_form(s@));
            assert(mac@ =~= mac_text_bytes(s@));
        }
        Some(mac)
    }
}

/// The one-character string for an uppercase hexadecimal digit value.
fn hex_pair_str(n: u8) -> (r: &'static str)
    requires
        n < 16,
    ensures
        r@ == seq![hex_digit_char(n as int)],
{
    let r = match n {
        0 => "0",
        1 => "1",
        2 => "2",
        3 => "3",
        4 => "4",
        5 => "5",
        6 => "6",
        7 => "7",
        8 => "8",
        9 => "9",
        10 => "A",
        11 => "B",
        12 => "C",
        13 => "D",
        14 => "E",
        _ => "F",
    };
    proof {
        reveal_strlit("0");
        reveal_strlit("1");
        reveal_strlit("2");
        reveal_strlit("3");
        reveal_strlit("4");
        reveal_strlit("5");
        reveal_strlit("6");
        reveal_strlit("7");
        reveal_strlit("8");
        reveal_strlit("9");
        reveal_strlit("A");
        reveal_strlit("B");
        reveal_strlit("C");
        reveal_strlit("D");
        reveal_strlit("E");
        reveal_strlit("F");
        assert(r@ =~= seq![hex_digit_char(n as int)]);
    }
    r
}

/// The value of a hexadecimal digit character, of either case; any other
/// character gives nothing.
fn hex_digit_val(c: char) -> (r: Option<u8>)
    ensures
        match r {
            Some(v) => is_hex_digit(c) && v == hex_val(c) && v < 16,
            None => !is_hex_digit(c),
        },
{
    let u = c as u32;
    if 48 <= u && u <= 57 {
        Some((u - 48) as u8)
    } else if 65 <= u && u <= 70 {
        Some((u - 65 + 10) as u8)
    } else if 97 <= u && u <= 102 {
        Some((u - 97 + 10) as u8)
    } else {
        None
    }
}

/// Hexadecimal digit characters for values below 16 are hexadecimal digits
/// and denote their value back.
pub proof fn lemma_hex_digit_char_val(n: int)
    requires
        0 <= n < 16,
    ensures
        is_hex_digit(hex_digit_char(n)),
        hex_val(hex_digit_char(n)) == n,
{
}

/// Formatting then parsing gives the bytes back: the canonical text form of
/// any six bytes is in hardware-address form and denotes those bytes.
pub proof fn lemma_mac_text_round_trip(b: Seq<u8>)
    requires
        b.len() == 6,
    ensures
        mac_text_form(mac_text(b)),
        mac_text_bytes(mac_text(b)) =~= b,
{
    let s = mac_text(b);
    assert forall|j: int| 0 <= j < 6 implies is_hex_digit(#[trigger] s[3 * j]) && is_hex_digit(
        s[3 * j + 1],
    ) by {
        lemma_hex_digit_char_val(b[j] as int / 16);
        lemma_hex_digit_char_val(b[j] as int % 16);
    }
    assert forall|j: int| 0 <= j < 6 implies #[trigger] mac_text_bytes(s)[j] == b[j] by {
        lemma_hex_digit_char_val(b[j] as int / 16);
        lemma_hex_digit_char_val(b[j] as int % 16);
        assert(s[3 * j] == hex_digit_char(b[j] as int / 16));
        assert(s[3 * j + 1] == hex_digit_char(b[j] as int % 16));
    }
}

} // verus!
