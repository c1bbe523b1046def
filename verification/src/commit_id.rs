//! Commit identities: 160-bit content hashes, written as 40 hexadecimal
//! digits. The library only stores, compares and prints them.

use vstd::prelude::*;
use crate::text::{chars_of, string_of};

verus! {

/// The identity of a commit: five 32-bit words, the most significant first.
#[derive(Clone, Copy, Debug, PartialEq, Eq, Structural, Hash)]
pub struct CommitId(pub u32, pub u32, pub u32, pub u32, pub u32);

/// Number of hexadecimal digits in a short id.
pub const SHORT_ID_LEN: usize = 8;

/// The lower-case hexadecimal digit for `d`, which is below 16.
pub open spec fn hex_digit(d: nat) -> char {
    if d == 0 {
        '0'
    } else if d == 1 {
        '1'
    } else if d == 2 {
        '2'
    } else if d == 3 {
        '3'
    } else if d == 4 {
        '4'
    } else if d == 5 {
        '5'
    } else if d == 6 {
        '6'
    } else if d == 7 {
        '7'
    } else if d == 8 {
        '8'
    } else if d == 9 {
        '9'
    } else if d == 10 {
        'a'
    } else if d == 11 {
        'b'
    } else if d == 12 {
        'c'
    } else if d == 13 {
        'd'
    } else if d == 14 {
        'e'
    } else {
        'f'
    }
}

/// The last `n` hexadecimal digits of `v`, the most significant first.
pub open spec fn hex_digits(v: nat, n: nat) -> Seq<char>
    decreases n,
{
    if n == 0 {
        Seq::empty()
    } else {
        hex_digits(v / 16, (n - 1) as nat).push(hex_digit(v % 16))
    }
}

/// The value of the hexadecimal digit `c`, in either case; `None` for any
/// other character.
pub open spec fn hex_digit_value(c: char) -> Option<nat> {
    if '0' <= c <= '9' {
        Some((c as nat - '0' as nat) as nat)
    } else if 'a' <= c <= 'f' {
        Some((c as nat - 'a' as nat + 10) as nat)
    } else if 'A' <= c <= 'F' {
        Some((c as nat - 'A' as nat + 10) as nat)
    } else {
        None
    }
}

/// Whether `s` consists of hexadecimal digits only.
pub open spec fn is_hex(s: Seq<char>) -> bool {
    forall|i: int| 0 <= i < s.len() ==> (#[trigger] hex_digit_value(s[i])) is Some
}

/// The number that the hexadecimal digits `s` denote.
pub open spec fn hex_number(s: Seq<char>) -> nat
    decreases s.len(),
{
    if s.len() == 0 {
        0
    } else {
        16 * hex_number(s.drop_last()) + hex_digit_value(s.last()).unwrap_or(0)
    }
}

/// The identity written as `s`: `s` must be 40 hexadecimal digits, and each
/// group of eight gives one word.
pub open spec fn parse_commit_id(s: Seq<char>) -> Option<CommitId> {
    if s.len() == 40 && is_hex(s) {
        Some(
            CommitId(
                hex_number(s.subrange(0, 8)) as u32,
                hex_number(s.subrange(8, 16)) as u32,
                hex_number(s.subrange(16, 24)) as u32,
                hex_number(s.subrange(24, 32)) as u32,
                hex_number(s.subrange(32, 40)) as u32,
            ),
        )
    } else {
        None
    }
}

/// 16 to the power of `n`.
spec fn pow16(n: nat) -> nat
    decreases n,
{
    if n == 0 {
        1
    } else {
        16 * pow16((n - 1) as nat)
    }
}

/// Eight hexadecimal digits count up to 2 to the power of 32.
proof fn lemma_pow16_8()
    ensures
        pow16(8) == 0x1_0000_0000,
{
    reveal_with_fuel(pow16, 9);
}

/// The lower-case hexadecimal digit for `d`.
fn hex_char(d: u8) -> (c: char)
    requires
        d < 16,
    ensures
        c == hex_digit(d as nat),
{
    if d == 0 {
        '0'
    } else if d == 1 {
        '1'
    } else if d == 2 {
        '2'
    } else if d == 3 {
        '3'
    } else if d == 4 {
        '4'
    } else if d == 5 {
        '5'
    } else if d == 6 {
        '6'
    } else if d == 7 {
        '7'
    } else if d == 8 {
        '8'
    } else if d == 9 {
        '9'
    } else if d == 10 {
        'a'
    } else if d == 11 {
        'b'
    } else if d == 12 {
        'c'
    } else if d == 13 {
        'd'
    } else if d == 14 {
        'e'
    } else {
        'f'
    }
}

/// The value of the hexadecimal digit `c`, if it is one.
fn digit_of(c: char) -> (d: Option<u8>)
    ensures
        match d {
            Some(d) => hex_digit_value(c) == Some(d as nat) && d < 16,
            None => hex_digit_value(c) is None,
        },
{
    if '0' <= c && c <= '9' {
        Some((c as u32 - '0' as u32) as u8)
    } else if 'a' <= c && c <= 'f' {
        Some((c as u32 - 'a' as u32 + 10) as u8)
    } else if 'A' <= c && c <= 'F' {
        Some((c as u32 - 'A' as u32 + 10) as u8)
    } else {
        None
    }
}

/// Appends the last `n` hexadecimal digits of `v` to `out`.
pub fn push_hex(out: &mut Vec<char>, v: u32, n: usize)
    ensures
        final(out)@ == old(out)@ + hex_digits(v as nat, n as nat),
    decreases n,
{
    if n > 0 {
        push_hex(out, v / 16, n - 1);
        out.push(hex_char((v % 16) as u8));
        assert(out@ == old(out)@ + hex_digits(v as nat, n as nat));
    } else {
        assert(out@ == old(out)@ + hex_digits(v as nat, 0));
    }
}

/// Reads the eight hexadecimal digits of `v` that start at `from`.
pub fn parse_word(v: &Vec<char>, from: usize) -> (w: Option<u32>)
    requires
        from + 8 <= v.len(),
    ensures
        w is Some <==> is_hex(v@.subrange(from as int, from + 8)),
        w is Some ==> w->0 == hex_number(v@.subrange(from as int, from + 8)),
        w is Some ==> hex_number(v@.subrange(from as int, from + 8)) <= u32::MAX,
{
    let mut acc: u64 = 0;
    let mut i: usize = 0;
    let ghost word = v@.subrange(from as int, from + 8);
    while i < 8
        invariant
            i <= 8,
            from + 8 <= v.len(),
            word == v@.subrange(from as int, from + 8),
            is_hex(word.take(i as int)),
            acc == hex_number(word.take(i as int)),
            acc < pow16(i as nat),
            pow16(i as nat) <= 0x1_0000_0000,
        decreases 8 - i,
    {
        let c = v[from + i];
        assert(c == word[i as int]);
        proof {
            lemma_pow16_8();
            reveal_with_fuel(pow16, 9);
        }
        match digit_of(c) {
            None => {
                assert(hex_digit_value(word[i as int]) is None);
                assert(!is_hex(word));
                return None;
            },
            Some(d) => {
                let ghost prev = word.take(i as int);
                let ghost cur = word.take(i + 1);
                assert(cur.drop_last() == prev);
                assert(cur.last() == c);
                assert forall|k: int| 0 <= k < cur.len() implies (#[trigger] hex_digit_value(
                    cur[k],
                )) is Some by {
                    if k < i {
                        assert(cur[k] == prev[k]);
                    }
                }
                acc = acc * 16 + d as u64;
                i += 1;
            },
        }
    }
    proof {
        lemma_pow16_8();
        assert(word.take(8) == word);
    }
    Some(acc as u32)
}

/// Whether `c` is one of the characters `0` to `9` and `a` to `f`.
pub open spec fn is_lower_hex(c: char) -> bool {
    ('0' <= c <= '9') || ('a' <= c <= 'f')
}

/// The `n` digits of a number below 16 to the power of `n` are digits,
/// and denote the number.
proof fn lemma_hex_digits(v: nat, n: nat)
    requires
        v < pow16(n),
    ensures
        hex_digits(v, n).len() == n,
        is_hex(hex_digits(v, n)),
        hex_number(hex_digits(v, n)) == v,
        forall|i: int| 0 <= i < n ==> is_lower_hex(#[trigger] hex_digits(v, n)[i]),
    decreases n,
{
    if n > 0 {
        lemma_hex_digits(v / 16, (n - 1) as nat);
        let before = hex_digits(v / 16, (n - 1) as nat);
        let all = hex_digits(v, n);
        let d = v % 16;
        assert(all == before.push(hex_digit(d)));
        assert(hex_digit_value(hex_digit(d)) == Some(d));
        assert(is_lower_hex(hex_digit(d)));
        assert(all.drop_last() == before);
        assert(all.last() == hex_digit(d));
        assert forall|i: int| 0 <= i < n implies is_lower_hex(#[trigger] all[i]) && (
        #[trigger] hex_digit_value(all[i])) is Some by {
            if i < n - 1 {
                assert(all[i] == before[i]);
            }
        }
    }
}

/// The eight digits of a word are digits, and denote the word.
pub proof fn lemma_hex_word(w: u32)
    ensures
        hex_digits(w as nat, 8).len() == 8,
        is_hex(hex_digits(w as nat, 8)),
        hex_number(hex_digits(w as nat, 8)) == w,
        forall|i: int| 0 <= i < 8 ==> is_lower_hex(#[trigger] hex_digits(w as nat, 8)[i]),
{
    lemma_pow16_8();
    lemma_hex_digits(w as nat, 8);
}

/// An identity is read back from its 40 digits, which are digits all.
pub proof fn lemma_hex_round_trip(id: CommitId)
    ensures
        id.hex_spec().len() == 40,
        parse_commit_id(id.hex_spec()) == Some(id),
        forall|i: int| 0 <= i < 40 ==> is_lower_hex(#[trigger] id.hex_spec()[i]),
{
    lemma_hex_word(id.0);
    lemma_hex_word(id.1);
    lemma_hex_word(id.2);
    lemma_hex_word(id.3);
    lemma_hex_word(id.4);
    let s = id.hex_spec();
    let w0 = hex_digits(id.0 as nat, 8);
    let w1 = hex_digits(id.1 as nat, 8);
    let w2 = hex_digits(id.2 as nat, 8);
    let w3 = hex_digits(id.3 as nat, 8);
    let w4 = hex_digits(id.4 as nat, 8);
    assert(s.subrange(0, 8) == w0);
    assert(s.subrange(8, 16) == w1);
    assert(s.subrange(16, 24) == w2);
    assert(s.subrange(24, 32) == w3);
    assert(s.subrange(32, 40) == w4);
    assert forall|i: int| 0 <= i < 40 implies is_lower_hex(#[trigger] s[i]) && (
    #[trigger] hex_digit_value(s[i])) is Some by {
        if i < 8 {
            assert(s[i] == w0[i]);
        } else if i < 16 {
            assert(s[i] == w1[i - 8]);
        } else if i < 24 {
            assert(s[i] == w2[i - 16]);
        } else if i < 32 {
            assert(s[i] == w3[i - 24]);
        } else {
            assert(s[i] == w4[i - 32]);
        }
    }
}

/// Distinct identities are distinct numbers.
pub proof fn lemma_value_is_one_to_one(a: CommitId, b: CommitId)
    requires
        a.value() == b.value(),
    ensures
        a == b,
{
    let low_a = (a.1 as nat) * 0x1_0000_0000_0000_0000_0000_0000 + (a.2 as nat)
        * 0x1_0000_0000_0000_0000 + (a.3 as nat) * 0x1_0000_0000 + (a.4 as nat);
    let low_b = (b.1 as nat) * 0x1_0000_0000_0000_0000_0000_0000 + (b.2 as nat)
        * 0x1_0000_0000_0000_0000 + (b.3 as nat) * 0x1_0000_0000 + (b.4 as nat);
    assert(low_a < 0x1_0000_0000_0000_0000_0000_0000_0000_0000);
    assert(low_b < 0x1_0000_0000_0000_0000_0000_0000_0000_0000);
    assert(a.0 == b.0);
    assert(a.1 == b.1);
    assert(a.2 == b.2);
    assert(a.3 == b.3);
}

impl CommitId {
    /// The identity read as one 160-bit number.
    pub open spec fn value(self) -> nat {
        (self.0 as nat) * 0x1_0000_0000_0000_0000_0000_0000_0000_0000 + (self.1 as nat)
            * 0x1_0000_0000_0000_0000_0000_0000 + (self.2 as nat) * 0x1_0000_0000_0000_0000 + (
        self.3 as nat) * 0x1_0000_0000 + (self.4 as nat)
    }

    /// The short id: the first eight hexadecimal digits.
    pub open spec fn short_id_spec(self) -> Seq<char> {
        hex_digits(self.0 as nat, 8)
    }

    /// All 40 hexadecimal digits.
    pub open spec fn hex_spec(self) -> Seq<char> {
        hex_digits(self.0 as nat, 8) + hex_digits(self.1 as nat, 8) + hex_digits(
            self.2 as nat,
            8,
        ) + hex_digits(self.3 as nat, 8) + hex_digits(self.4 as nat, 8)
    }

    /// Whether `self` comes before `other` in the order of identities,
    /// which is that of their numbers.
    pub fn precedes(&self, other: &CommitId) -> (r: bool)
        ensures
            r == (self.value() < other.value()),
    {
        if self.0 != other.0 {
            self.0 < other.0
        } else if self.1 != other.1 {
            self.1 < other.1
        } else if self.2 != other.2 {
            self.2 < other.2
        } else if self.3 != other.3 {
            self.3 < other.3
        } else {
            self.4 < other.4
        }
    }

    /// Appends the short id to `out`.
    pub fn push_short_id(&self, out: &mut Vec<char>)
        ensures
            final(out)@ == old(out)@ + self.short_id_spec(),
    {
        push_hex(out, self.0, SHORT_ID_LEN);
    }

    /// The short id: the first eight hexadecimal digits, in lower case.
    pub fn short_id(&self) -> (s: String)
        ensures
            s@ == self.short_id_spec(),
    {
        let mut out: Vec<char> = Vec::new();
        self.push_short_id(&mut out);
        assert(out@ == self.short_id_spec());
        string_of(&out)
    }

    /// All 40 hexadecimal digits, in lower case.
    pub fn to_hex(&self) -> (s: String)
        ensures
            s@ == self.hex_spec(),
    {
        let mut out: Vec<char> = Vec::new();
        push_hex(&mut out, self.0, 8);
        push_hex(&mut out, self.1, 8);
        push_hex(&mut out, self.2, 8);
        push_hex(&mut out, self.3, 8);
        push_hex(&mut out, self.4, 8);
        assert(out@ == self.hex_spec());
        string_of(&out)
    }

    /// Reads an identity from its 40 hexadecimal digits, in either case.
    /// Anything else is no identity.
    pub fn from_hex(s: &str) -> (id: Option<CommitId>)
        ensures
            id == parse_commit_id(s@),
    {
        let v = chars_of(s);
        assert(v@.subrange(0, v.len() as int) == s@);
        Self::from_chars(&v, 0, v.len())
    }

    /// Reads an identity from the characters of `v` from `from` up to `to`.
    pub fn from_chars(v: &Vec<char>, from: usize, to: usize) -> (id: Option<CommitId>)
        requires
            from <= to <= v.len(),
        ensures
            id == parse_commit_id(v@.subrange(from as int, to as int)),
    {
        let ghost s = v@.subrange(from as int, to as int);
        if to - from != 40 {
            return None;
        }
        proof {
            assert(s.subrange(0, 8) == v@.subrange(from as int, from + 8));
            assert(s.subrange(8, 16) == v@.subrange(from + 8, from + 16));
            assert(s.subrange(16, 24) == v@.subrange(from + 16, from + 24));
            assert(s.subrange(24, 32) == v@.subrange(from + 24, from + 32));
            assert(s.subrange(32, 40) == v@.subrange(from + 32, from + 40));
            assert forall|a: int, b: int| 0 <= a <= b <= 40 && is_hex(s) implies is_hex(
                #[trigger] s.subrange(a, b),
            ) by {
                assert forall|k: int| 0 <= k < b - a implies (#[trigger] hex_digit_value(
                    s.subrange(a, b)[k],
                )) is Some by {
                    assert(s.subrange(a, b)[k] == s[a + k]);
                }
            }
            assert forall|a: int, b: int| 0 <= a <= b <= 40 && !is_hex(
                #[trigger] s.subrange(a, b),
            ) implies !is_hex(s) by {
                let k = choose|k: int|
                    0 <= k < b - a && !((#[trigger] hex_digit_value(s.subrange(a, b)[k])) is Some);
                assert(s.subrange(a, b)[k] == s[a + k]);
            }
        }
        let w0 = match parse_word(v, from) {
            Some(w) => w,
            None => { return None; },
        };
        let w1 = match parse_word(v, from + 8) {
            Some(w) => w,
            None => { return None; },
        };
        let w2 = match parse_word(v, from + 16) {
            Some(w) => w,
            None => { return None; },
        };
        let w3 = match parse_word(v, from + 24) {
            Some(w) => w,
            None => { return None; },
        };
        let w4 = match parse_word(v, from + 32) {
            Some(w) => w,
            None => { return None; },
        };
        proof {
            assert forall|k: int| 0 <= k < 40 implies (#[trigger] hex_digit_value(s[k])) is Some by {
                let g = k / 8;
                let sub = s.subrange(8 * g, 8 * g + 8);
                assert(is_hex(sub));
                assert(sub[k - 8 * g] == s[k]);
            }
        }
        Some(CommitId(w0, w1, w2, w3, w4))
    }
}

} // verus!
