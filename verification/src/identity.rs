//! Identities: fixed-size public keys with a hexadecimal text codec.

use vstd::prelude::*;

verus! {

/// A participant's public key: an opaque 256-bit value, held as four
/// 64-bit words in big-endian order (`w0` holds the most significant
/// bits, so the first 16 hex digits of the textual form).
///
/// Equality is by the raw key bits.
#[derive(Debug, Clone, Copy, PartialEq, Eq, PartialOrd, Ord, Structural)]
pub struct Identity {
    pub w0: u64,
    pub w1: u64,
    pub w2: u64,
    pub w3: u64,
}

/// Malformed identity text.
#[derive(Debug, Clone, Copy, PartialEq, Eq, Structural)]
pub enum ParseError {
    /// The text is not exactly 64 characters long.
    WrongLength,
    /// A character is not a hexadecimal digit.
    BadCharacter,
}

/// The value of a hexadecimal digit character, if it is one.
fn nibble_of_char(c: char) -> (r: Option<u8>)
    ensures
        match r {
            Some(n) => is_hex_digit(c) && n < 16 && n == nibble_val(c),
            None => !is_hex_digit(c),
        },
{
    let v = c as u32;
    if 48 <= v && v <= 57 {
        Some((v - 48) as u8)
    } else if 97 <= v && v <= 102 {
        Some((v - 87) as u8)
    } else if 65 <= v && v <= 70 {
        Some((v - 55) as u8)
    } else {
        None
    }
}

/// Appends the lowercase digit of a value below sixteen to a text.
fn push_nibble(s: &mut String, n: u8)
    requires
        n < 16,
    ensures
        final(s)@ == old(s)@.push(nibble_char(n as int)),
{
    let d: &str = match n {
        0 => "0",
        1 => "1",
        2 => "2",
        3 => "3",
        4 => "4",
        5 => "5",
        6 => "6",
        7 => "7",
        8 => "8",
        9 => "9",
        10 => "a",
        11 => "b",
        12 => "c",
        13 => "d",
        14 => "e",
        15 => "f",
        _ => "0",
    };
    proof {
        reveal_strlit("0");
        reveal_strlit("1");
        reveal_strlit("2");
        reveal_strlit("3");
        reveal_strlit("4");
        reveal_strlit("5");
        reveal_strlit("6");
        reveal_strlit("7");
        reveal_strlit("8");
        reveal_strlit("9");
        reveal_strlit("a");
        reveal_strlit("b");
        reveal_strlit("c");
        reveal_strlit("d");
        reveal_strlit("e");
        reveal_strlit("f");
        assert(d@.len() == 1 && d@[0] == nibble_char(n as int));
    }
    s.append(d);
    proof {
        assert(s@ =~= old(s)@.push(nibble_char(n as int)));
    }
}

impl Identity {
    /// Builds an identity directly from its four big-endian words.
    pub fn from_words(w0: u64, w1: u64, w2: u64, w3: u64) -> (r: Identity)
        ensures
            r == (Identity { w0, w1, w2, w3 }),
    {
        Identity { w0, w1, w2, w3 }
    }

    /// Parses the 64-digit hexadecimal form of an identity. Any other
    /// length fails with `WrongLength`; a character that is not a
    /// hexadecimal digit fails with `BadCharacter`.
    pub fn from_hex(s: &str) -> (r: Result<Identity, ParseError>)
        ensures
            s@.len() != 64 ==> r == Err::<Identity, ParseError>(ParseError::WrongLength),
            s@.len() == 64 && !all_hex(s@) ==> r == Err::<Identity, ParseError>(
                ParseError::BadCharacter,
            ),
            s@.len() == 64 && all_hex(s@) ==> (r matches Ok(id) && id == (Identity {
                w0: word_val(s@.subrange(0, 16)) as u64,
                w1: word_val(s@.subrange(16, 32)) as u64,
                w2: word_val(s@.subrange(32, 48)) as u64,
                w3: word_val(s@.subrange(48, 64)) as u64,
            })),
    {
        let len = s.unicode_len();
        if len != 64 {
            return Err(ParseError::WrongLength);
        }
        let w0 = match Self::parse_word(s, 0) {
            Ok(w) => w,
            Err(e) => {
                return Err(e);
            },
        };
        let w1 = match Self::parse_word(s, 16) {
            Ok(w) => w,
            Err(e) => {
                return Err(e);
            },
        };
        let w2 = match Self::parse_word(s, 32) {
            Ok(w) => w,
            Err(e) => {
                return Err(e);
            },
        };
        let w3 = match Self::parse_word(s, 48) {
            Ok(w) => w,
            Err(e) => {
                return Err(e);
            },
        };
        proof {
            if !all_hex(s@) {
                let i = choose|i: int| 0 <= i < s@.len() && !is_hex_digit(s@[i]);
                if i < 16 {
                    assert(s@.subrange(0, 16)[i] == s@[i]);
                } else if i < 32 {
                    assert(s@.subrange(16, 32)[i - 16] == s@[i]);
                } else if i < 48 {
                    assert(s@.subrange(32, 48)[i - 32] == s@[i]);
                } else {
                    assert(s@.subrange(48, 64)[i - 48] == s@[i]);
                }
                assert(false);
            }
        }
        Ok(Identity { w0, w1, w2, w3 })
    }

    /// Reads sixteen hexadecimal digits into a word.
    fn parse_word(s: &str, start: usize) -> (r: Result<u64, ParseError>)
        requires
            s@.len() == 64,
            start + 16 <= 64,
        ensures
            all_hex(s@.subrange(start as int, start + 16)) ==> (r matches Ok(w) && w == word_val(
                s@.subrange(start as int, start + 16),
            )),
            !all_hex(s@.subrange(start as int, start + 16)) ==> r == Err::<u64, ParseError>(
                ParseError::BadCharacter,
            ),
    {
        let ghost window = s@.subrange(start as int, start + 16);
        let mut w: u64 = 0;
        let mut i: usize = 0;
        while i < 16
            invariant
                i <= 16,
                s@.len() == 64,
                start + 16 <= 64,
                window == s@.subrange(start as int, start + 16),
                all_hex(window.subrange(0, i as int)),
                w == word_val(window.subrange(0, i as int)),
            decreases 16 - i,
        {
            let c = s.get_char(start + i);
            proof {
                assert(window[i as int] == s@[start + i]);
            }
            let nb = match nibble_of_char(c) {
                Some(nb) => nb,
                None => {
                    proof {
                        assert(!is_hex_digit(window[i as int]));
                    }
                    return Err(ParseError::BadCharacter);
                },
            };
            proof {
                assert(window.subrange(0, i + 1) =~= window.subrange(0, i as int).push(c));
                assert(all_hex(window.subrange(0, i + 1))) by {
                    assert forall|j: int|
                        0 <= j < i + 1 implies is_hex_digit(
                        #[trigger] window.subrange(0, i + 1)[j],
                    ) by {
                        if j < i {
                            assert(window.subrange(0, i + 1)[j] == window.subrange(
                                0,
                                i as int,
                            )[j]);
                        } else {
                            assert(window.subrange(0, i + 1)[j] == c);
                        }
                    }
                }
                lemma_word_val_bound(window.subrange(0, i as int));
                lemma_pow16_values();
                assert(pow16(i as nat) <= pow16(15)) by {
                    lemma_pow16_mono(i as nat, 15);
                }
                assert(word_val(window.subrange(0, i + 1)) == w * 16 + nibble_val(c)) by {
                    assert(window.subrange(0, i + 1).drop_last() =~= window.subrange(
                        0,
                        i as int,
                    ));
                    assert(window.subrange(0, i + 1).last() == c);
                }
            }
            w = w * 16 + (nb as u64);
            i += 1;
        }
        proof {
            assert(window.subrange(0, 16) =~= window);
        }
        Ok(w)
    }

    /// The identity's 64-digit lowercase hexadecimal form.
    pub fn to_hex(&self) -> (r: String)
        ensures
            r@ == spec_to_hex(*self),
            r@.len() == 64,
            all_hex(r@),
    {
        let mut s = String::new();
        Self::encode_word_into(&mut s, self.w0);
        Self::encode_word_into(&mut s, self.w1);
        Self::encode_word_into(&mut s, self.w2);
        Self::encode_word_into(&mut s, self.w3);
        proof {
            assert(s@ =~= spec_to_hex(*self));
            lemma_word_roundtrip(self.w0);
            lemma_word_roundtrip(self.w1);
            lemma_word_roundtrip(self.w2);
            lemma_word_roundtrip(self.w3);
            assert(all_hex(s@)) by {
                assert forall|i: int| 0 <= i < s@.len() implies is_hex_digit(
                    #[trigger] s@[i],
                ) by {
                    if i < 16 {
                        assert(s@[i] == word_chars(self.w0)[i]);
                    } else if i < 32 {
                        assert(s@[i] == word_chars(self.w1)[i - 16]);
                    } else if i < 48 {
                        assert(s@[i] == word_chars(self.w2)[i - 32]);
                    } else {
                        assert(s@[i] == word_chars(self.w3)[i - 48]);
                    }
                }
            }
        }
        s
    }

    /// Appends a word's sixteen digits, most significant first.
    fn encode_word_into(s: &mut String, w: u64)
        ensures
            final(s)@ == old(s)@ + word_chars(w),
    {
        proof {
            lemma_pow16_values();
        }
        let mut div: u64 = 0x1000000000000000;
        let mut j: usize = 0;
        while j < 16
            invariant
                j <= 16,
                j < 16 ==> div == pow16((15 - j) as nat),
                s@ == old(s)@ + word_chars(w).subrange(0, j as int),
            decreases 16 - j,
        {
            proof {
                lemma_pow16_pos((15 - j) as nat);
            }
            let nib = ((w / div) % 16) as u8;
            proof {
                assert(nib == nibble_of(w, j as int));
                assert(word_chars(w)[j as int] == nibble_char(nib as int));
            }
            push_nibble(s, nib);
            proof {
                assert(s@ =~= old(s)@ + word_chars(w).subrange(0, j + 1));
            }
            if j < 15 {
                proof {
                    assert(pow16((15 - j) as nat) == 16 * pow16((14 - j) as nat));
                    lemma_pow16_pos((14 - j) as nat);
                    lemma_pow16_values();
                    assert(pow16((14 - j) as nat) <= pow16(15)) by {
                        lemma_pow16_mono((14 - j) as nat, 15);
                    }
                }
                div = div / 16;
                proof {
                    assert(div == pow16((14 - j) as nat));
                }
            }
            j += 1;
        }
        proof {
            assert(word_chars(w).subrange(0, 16) =~= word_chars(w));
        }
    }
}

/// Writing an identity out and parsing the text back yields the same
/// identity: the codec round-trips.
pub proof fn lemma_hex_round_trip(id: Identity)
    ensures
        spec_to_hex(id).len() == 64,
        all_hex(spec_to_hex(id)),
        word_val(spec_to_hex(id).subrange(0, 16)) == id.w0,
        word_val(spec_to_hex(id).subrange(16, 32)) == id.w1,
        word_val(spec_to_hex(id).subrange(32, 48)) == id.w2,
        word_val(spec_to_hex(id).subrange(48, 64)) == id.w3,
{
    lemma_word_roundtrip(id.w0);
    lemma_word_roundtrip(id.w1);
    lemma_word_roundtrip(id.w2);
    lemma_word_roundtrip(id.w3);
    let h = spec_to_hex(id);
    assert(h.subrange(0, 16) =~= word_chars(id.w0));
    assert(h.subrange(16, 32) =~= word_chars(id.w1));
    assert(h.subrange(32, 48) =~= word_chars(id.w2));
    assert(h.subrange(48, 64) =~= word_chars(id.w3));
    assert(all_hex(h)) by {
        assert forall|i: int| 0 <= i < h.len() implies is_hex_digit(#[trigger] h[i]) by {
            if i < 16 {
                assert(h[i] == word_chars(id.w0)[i]);
            } else if i < 32 {
                assert(h[i] == word_chars(id.w1)[i - 16]);
            } else if i < 48 {
                assert(h[i] == word_chars(id.w2)[i - 32]);
            } else {
                assert(h[i] == word_chars(id.w3)[i - 48]);
            }
        }
    }
}

/// Sixteen to the given power.
pub open spec fn pow16(n: nat) -> int
    decreases n,
{
    if n == 0 {
        1
    } else {
        16 * pow16((n - 1) as nat)
    }
}

/// Whether a character is a hexadecimal digit.
pub open spec fn is_hex_digit(c: char) -> bool {
    ('0' <= c && c <= '9') || ('a' <= c && c <= 'f') || ('A' <= c && c <= 'F')
}

/// The value of a hexadecimal digit.
pub open spec fn nibble_val(c: char) -> int {
    if '0' <= c && c <= '9' {
        c as int - 48
    } else if 'a' <= c && c <= 'f' {
        c as int - 87
    } else {
        c as int - 55
    }
}

/// The lowercase hexadecimal digit of a value below sixteen.
pub open spec fn nibble_char(n: int) -> char {
    if n < 10 {
        (48 + n) as char
    } else {
        (87 + n) as char
    }
}

/// Whether every character of a text is a hexadecimal digit.
pub open spec fn all_hex(s: Seq<char>) -> bool {
    forall|i: int| 0 <= i < s.len() ==> is_hex_digit(#[trigger] s[i])
}

/// The number a big-endian sequence of hexadecimal digits denotes.
pub open spec fn word_val(s: Seq<char>) -> int
    decreases s.len(),
{
    if s.len() == 0 {
        0
    } else {
        word_val(s.drop_last()) * 16 + nibble_val(s.last())
    }
}

/// The hexadecimal digit at position `i` (from the most significant
/// end) of a 64-bit word's sixteen-digit form.
pub open spec fn nibble_of(w: u64, i: int) -> int {
    ((w as int) / pow16((15 - i) as nat)) % 16
}

/// A 64-bit word's sixteen lowercase hexadecimal digits, most
/// significant first.
pub open spec fn word_chars(w: u64) -> Seq<char> {
    Seq::new(16, |i: int| nibble_char(nibble_of(w, i)))
}

/// An identity's 64-digit lowercase hexadecimal form.
pub open spec fn spec_to_hex(id: Identity) -> Seq<char> {
    word_chars(id.w0) + word_chars(id.w1) + word_chars(id.w2) + word_chars(id.w3)
}

/// Powers of sixteen are positive.
pub proof fn lemma_pow16_pos(n: nat)
    ensures
        pow16(n) >= 1,
    decreases n,
{
    if n > 0 {
        lemma_pow16_pos((n - 1) as nat);
    }
}

/// The first seventeen powers of sixteen, pinned; the largest is one
/// past the largest 64-bit word.
pub proof fn lemma_pow16_values()
    ensures
        pow16(15) == 0x1000000000000000,
        pow16(16) == 0x10000000000000000,
        forall|n1: nat, n2: nat| n1 <= n2 <= 16 ==> #[trigger] pow16(n1) <= #[trigger] pow16(n2),
{
    assert(pow16(0) == 1);
    assert(pow16(1) == 16);
    assert(pow16(2) == 0x100);
    assert(pow16(3) == 0x1000);
    assert(pow16(4) == 0x10000);
    assert(pow16(5) == 0x100000);
    assert(pow16(6) == 0x1000000);
    assert(pow16(7) == 0x10000000);
    assert(pow16(8) == 0x100000000);
    assert(pow16(9) == 0x1000000000);
    assert(pow16(10) == 0x10000000000);
    assert(pow16(11) == 0x100000000000);
    assert(pow16(12) == 0x1000000000000);
    assert(pow16(13) == 0x10000000000000);
    assert(pow16(14) == 0x100000000000000);
    assert(pow16(15) == 0x1000000000000000);
    assert(pow16(16) == 0x10000000000000000);
    assert forall|n1: nat, n2: nat| n1 <= n2 <= 16 implies #[trigger] pow16(n1)
        <= #[trigger] pow16(n2) by {
        lemma_pow16_mono(n1, n2);
    }
}

/// Powers of sixteen grow with the exponent.
pub proof fn lemma_pow16_mono(n1: nat, n2: nat)
    requires
        n1 <= n2,
    ensures
        pow16(n1) <= pow16(n2),
    decreases n2,
{
    if n1 < n2 {
        lemma_pow16_mono(n1, (n2 - 1) as nat);
        lemma_pow16_pos((n2 - 1) as nat);
    }
}

/// A hexadecimal digit's value lies below sixteen.
pub proof fn lemma_nibble_val_range(c: char)
    requires
        is_hex_digit(c),
    ensures
        0 <= nibble_val(c) < 16,
{
}

/// Digit of a value, value of a digit: they invert each other below
/// sixteen.
pub proof fn lemma_nibble_roundtrip(n: int)
    requires
        0 <= n < 16,
    ensures
        is_hex_digit(nibble_char(n)),
        nibble_val(nibble_char(n)) == n,
{
    if n < 10 {
        assert(nibble_char(n) == (48 + n) as char);
        assert('0' <= (48 + n) as char && (48 + n) as char <= '9');
        assert(((48 + n) as char) as int == 48 + n);
    } else {
        assert(nibble_char(n) == (87 + n) as char);
        assert('a' <= (87 + n) as char && (87 + n) as char <= 'f');
        assert(((87 + n) as char) as int == 87 + n);
    }
}

/// A string of hexadecimal digits denotes a value below sixteen to its
/// length.
pub proof fn lemma_word_val_bound(s: Seq<char>)
    requires
        all_hex(s),
    ensures
        0 <= word_val(s) < pow16(s.len()),
    decreases s.len(),
{
    if s.len() == 0 {
    } else {
        assert(all_hex(s.drop_last())) by {
            assert(forall|i: int|
                0 <= i < s.len() - 1 ==> #[trigger] s.drop_last()[i] == s[i]);
        }
        lemma_word_val_bound(s.drop_last());
        lemma_nibble_val_range(s.last());
        lemma_pow16_pos((s.len() - 1) as nat);
        assert(pow16(s.len()) == 16 * pow16((s.len() - 1) as nat));
    }
}

/// Reading back the digits of a word gives the word: the value of a
/// prefix of its digit string is the word shifted right past the
/// unread digits.
pub proof fn lemma_word_chars_val(w: u64, m: int)
    requires
        0 <= m <= 16,
    ensures
        word_val(word_chars(w).subrange(0, m)) == (w as int) / pow16((16 - m) as nat),
    decreases m,
{
    lemma_pow16_values();
    if m == 0 {
        assert(word_val(word_chars(w).subrange(0, 0)) == 0);
        assert((w as int) / pow16(16) == 0) by {
            assert(w < 0x10000000000000000);
        }
    } else {
        lemma_word_chars_val(w, m - 1);
        let s = word_chars(w).subrange(0, m);
        assert(s.drop_last() =~= word_chars(w).subrange(0, m - 1));
        assert(s.last() == word_chars(w)[m - 1]);
        assert(word_chars(w)[m - 1] == nibble_char(nibble_of(w, m - 1)));
        let p = pow16((16 - m) as nat);
        let p16 = pow16((16 - m + 1) as nat);
        assert(p16 == 16 * p);
        lemma_pow16_pos((16 - m) as nat);
        assert(nibble_of(w, m - 1) == ((w as int) / p) % 16);
        lemma_nibble_roundtrip(((w as int) / p) % 16);
        assert(word_val(s) == ((w as int) / p16) * 16 + ((w as int) / p) % 16);
        assert((w as int) / p16 == ((w as int) / p) / 16) by {
            vstd::arithmetic::div_mod::lemma_div_denominator(w as int, p, 16);
        }
        assert((((w as int) / p) / 16) * 16 + ((w as int) / p) % 16 == (w as int) / p);
    }
}

/// The digits of a word read back to the word itself, and they are
/// hexadecimal digits.
pub proof fn lemma_word_roundtrip(w: u64)
    ensures
        word_chars(w).len() == 16,
        all_hex(word_chars(w)),
        word_val(word_chars(w)) == w,
{
    lemma_pow16_values();
    assert(all_hex(word_chars(w))) by {
        assert forall|i: int| 0 <= i < 16 implies is_hex_digit(
            #[trigger] word_chars(w)[i],
        ) by {
            lemma_pow16_pos((15 - i) as nat);
            assert(0 <= nibble_of(w, i) < 16) by {
                vstd::arithmetic::div_mod::lemma_mod_division_less_than_divisor(
                    (w as int) / pow16((15 - i) as nat),
                    16,
                );
            }
            lemma_nibble_roundtrip(nibble_of(w, i));
        }
    }
    lemma_word_chars_val(w, 16);
    assert(word_chars(w).subrange(0, 16) =~= word_chars(w));
    assert((w as int) / pow16(0) == w);
}

/// Whether a vector holds an identity.
pub fn contains_id(v: &Vec<Identity>, x: &Identity) -> (b: bool)
    ensures
        b == v@.contains(*x),
{
    let n = v.len();
    let mut i: usize = 0;
    while i < n
        invariant
            i <= n,
            n == v@.len(),
            forall|j: int| 0 <= j < i ==> v@[j] != *x,
        decreases n - i,
    {
        if v[i] == *x {
            proof {
                assert(v@[i as int] == *x);
            }
            return true;
        }
        i += 1;
    }
    proof {
        if v@.contains(*x) {
            let j = choose|j: int| 0 <= j < v@.len() && v@[j] == *x;
            assert(v@[j] != *x);
        }
    }
    false
}

} // verus!
