//! The text form in which a share set travels.
//!
//! A share set is written as one word of 32 lower-case hexadecimal digits
//! for each share, most significant digit first and with nothing between the
//! words. A word holds the share plus `2^127`, so that it is never negative.

use vstd::prelude::*;
use vstd::string::StringExecFns;
use vstd::utf8::{encode_utf8, is_ascii_chars, is_ascii_chars_encode_utf8};

verus! {

/// Number of digits in a word.
pub const WORD_DIGITS: usize = 32;

/// What is added to a share to make its word: `2^127`.
pub const WORD_OFFSET: u128 = 0x8000_0000_0000_0000_0000_0000_0000_0000;

/// The digit, as an ASCII code, that stands for `n`.
pub open spec fn hex_digit(n: int) -> u8 {
    if n < 10 {
        (48 + n) as u8
    } else {
        (87 + n) as u8
    }
}

/// The number a digit stands for.
pub open spec fn digit_value(b: u8) -> Option<int> {
    if 48 <= b <= 57 {
        Some(b - 48)
    } else if 97 <= b <= 102 {
        Some(b - 87)
    } else {
        None
    }
}

/// `16^n`.
pub open spec fn pow16(n: nat) -> nat
    decreases n,
{
    if n == 0 {
        1
    } else {
        16 * pow16((n - 1) as nat)
    }
}

/// The lowest `width` hexadecimal digits of `v`, most significant first.
pub open spec fn hex(v: nat, width: nat) -> Seq<u8>
    decreases width,
{
    if width == 0 {
        Seq::empty()
    } else {
        hex(v / 16, (width - 1) as nat).push(hex_digit((v % 16) as int))
    }
}

/// The number that a run of hexadecimal digits writes.
pub open spec fn unhex(digits: Seq<u8>) -> Option<nat>
    decreases digits.len(),
{
    if digits.len() == 0 {
        Some(0)
    } else {
        match (unhex(digits.drop_last()), digit_value(digits.last())) {
            (Some(high), Some(low)) => Some((16 * high + low) as nat),
            _ => None,
        }
    }
}

/// The word of a share.
pub open spec fn word(share: i128) -> Seq<u8> {
    hex((share + WORD_OFFSET) as nat, WORD_DIGITS as nat)
}

/// The share that a word holds.
pub open spec fn unword(digits: Seq<u8>) -> Option<i128> {
    match unhex(digits) {
        Some(v) => if digits.len() == WORD_DIGITS {
            Some((v - WORD_OFFSET) as i128)
        } else {
            None
        },
        None => None,
    }
}

/// The text of a share set.
pub open spec fn share_text(shares: Seq<i128>) -> Seq<u8>
    decreases shares.len(),
{
    if shares.len() == 0 {
        Seq::empty()
    } else {
        share_text(shares.drop_last()) + word(shares.last())
    }
}

/// The share set that a text holds, if it is the text of one.
pub open spec fn parsed(text: Seq<u8>) -> Option<Seq<i128>>
    decreases text.len(),
{
    if text.len() == 0 {
        Some(Seq::empty())
    } else if text.len() < WORD_DIGITS {
        None
    } else {
        let cut = text.len() - WORD_DIGITS;
        match (parsed(text.take(cut)), unword(text.skip(cut))) {
            (Some(shares), Some(share)) => Some(shares.push(share)),
            _ => None,
        }
    }
}

/// The characters of an ASCII text.
pub open spec fn text_of(bytes: Seq<u8>) -> Seq<char> {
    bytes.map_values(|b: u8| b as char)
}

/// Every byte is a hexadecimal digit.
pub open spec fn all_digits(bytes: Seq<u8>) -> bool {
    forall|i: int| 0 <= i < bytes.len() ==> digit_value(#[trigger] bytes[i]) is Some
}

proof fn lemma_pow16_word()
    ensures
        pow16(WORD_DIGITS as nat) == 0x1_0000_0000_0000_0000_0000_0000_0000_0000,
{
    assert(pow16(4) == 0x1_0000) by {
        reveal_with_fuel(pow16, 5);
    }
    assert(pow16(8) == 0x1_0000_0000) by {
        reveal_with_fuel(pow16, 5);
    }
    assert(pow16(12) == 0x1_0000_0000_0000) by {
        reveal_with_fuel(pow16, 5);
    }
    assert(pow16(16) == 0x1_0000_0000_0000_0000) by {
        reveal_with_fuel(pow16, 5);
    }
    assert(pow16(20) == 0x1_0000_0000_0000_0000_0000) by {
        reveal_with_fuel(pow16, 5);
    }
    assert(pow16(24) == 0x1_0000_0000_0000_0000_0000_0000) by {
        reveal_with_fuel(pow16, 5);
    }
    assert(pow16(28) == 0x1_0000_0000_0000_0000_0000_0000_0000) by {
        reveal_with_fuel(pow16, 5);
    }
    assert(pow16(32) == 0x1_0000_0000_0000_0000_0000_0000_0000_0000) by {
        reveal_with_fuel(pow16, 5);
    }
}

proof fn lemma_hex_shape(v: nat, width: nat)
    ensures
        hex(v, width).len() == width,
        all_digits(hex(v, width)),
    decreases width,
{
    if width > 0 {
        lemma_hex_shape(v / 16, (width - 1) as nat);
    }
}

/// Reading what was written gives the number back.
proof fn lemma_unhex_of_hex(v: nat, width: nat)
    requires
        v < pow16(width),
    ensures
        unhex(hex(v, width)) == Some(v),
    decreases width,
{
    if width > 0 {
        let digits = hex(v, width);
        assert(digits.drop_last() =~= hex(v / 16, (width - 1) as nat));
        lemma_unhex_of_hex(v / 16, (width - 1) as nat);
    }
}

/// A number is written in one way only.
proof fn lemma_hex_of_unhex(digits: Seq<u8>)
    requires
        unhex(digits) is Some,
    ensures
        unhex(digits).unwrap() < pow16(digits.len()),
        hex(unhex(digits).unwrap(), digits.len()) == digits,
    decreases digits.len(),
{
    if digits.len() > 0 {
        lemma_hex_of_unhex(digits.drop_last());
        let high = unhex(digits.drop_last()).unwrap();
        let low = digit_value(digits.last()).unwrap();
        let v = unhex(digits).unwrap();
        assert(v / 16 == high && v % 16 == low);
        assert(hex(v, digits.len()) =~= digits);
    }
}

/// The word of a share holds that share.
pub proof fn lemma_unword_of_word(share: i128)
    ensures
        word(share).len() == WORD_DIGITS,
        all_digits(word(share)),
        unword(word(share)) == Some(share),
{
    lemma_pow16_word();
    lemma_hex_shape((share + WORD_OFFSET) as nat, WORD_DIGITS as nat);
    lemma_unhex_of_hex((share + WORD_OFFSET) as nat, WORD_DIGITS as nat);
}

/// The text of a share set has one word for each share and digits only.
pub proof fn lemma_share_text_shape(shares: Seq<i128>)
    ensures
        share_text(shares).len() == WORD_DIGITS * shares.len(),
        all_digits(share_text(shares)),
    decreases shares.len(),
{
    if shares.len() > 0 {
        lemma_share_text_shape(shares.drop_last());
        lemma_unword_of_word(shares.last());
    }
}

/// Parsing the text of a share set gives the share set back.
pub proof fn lemma_parsed_of_share_text(shares: Seq<i128>)
    ensures
        parsed(share_text(shares)) == Some(shares),
    decreases shares.len(),
{
    if shares.len() > 0 {
        let text = share_text(shares);
        let front = share_text(shares.drop_last());
        lemma_parsed_of_share_text(shares.drop_last());
        lemma_unword_of_word(shares.last());
        lemma_share_text_shape(shares.drop_last());
        let cut = text.len() - WORD_DIGITS;
        assert(text.take(cut) =~= front);
        assert(text.skip(cut) =~= word(shares.last()));
        assert(shares.drop_last().push(shares.last()) =~= shares);
    }
}

/// Only the text of a share set parses to it.
pub proof fn lemma_share_text_of_parsed(text: Seq<u8>)
    requires
        parsed(text) is Some,
    ensures
        share_text(parsed(text).unwrap()) == text,
    decreases text.len(),
{
    if text.len() > 0 {
        let cut = text.len() - WORD_DIGITS;
        let front = text.take(cut);
        let back = text.skip(cut);
        lemma_share_text_of_parsed(front);
        lemma_hex_of_unhex(back);
        lemma_pow16_word();
        let shares = parsed(text).unwrap();
        assert(shares.drop_last() =~= parsed(front).unwrap());
        assert(word(shares.last()) == back);
        assert(front + back =~= text);
    }
}

/// The bytes of a text made of digits are the digits.
pub proof fn lemma_text_bytes(bytes: Seq<u8>)
    requires
        all_digits(bytes),
    ensures
        is_ascii_chars(text_of(bytes)),
        encode_utf8(text_of(bytes)) == bytes,
{
    let chars = text_of(bytes);
    assert forall|i: int| 0 <= i < chars.len() implies '\0' <= #[trigger] chars[i] <= '\u{7f}' by {
        assert(digit_value(bytes[i]) is Some);
    }
    is_ascii_chars_encode_utf8(chars);
    assert forall|i: int| 0 <= i < bytes.len() implies encode_utf8(chars)[i] == bytes[i] by {
        assert(digit_value(bytes[i]) is Some);
        assert(chars[i] as u8 == bytes[i]);
    }
    assert(encode_utf8(chars) =~= bytes);
}

fn digit_of(n: u8) -> (b: u8)
    requires
        n < 16,
    ensures
        b == hex_digit(n as int),
{
    if n < 10 {
        48 + n
    } else {
        87 + n
    }
}

fn value_of(b: u8) -> (v: Option<u8>)
    ensures
        match v {
            Some(n) => digit_value(b) == Some(n as int),
            None => digit_value(b) is None,
        },
{
    if 48 <= b && b <= 57 {
        Some(b - 48)
    } else if 97 <= b && b <= 102 {
        Some(b - 87)
    } else {
        None
    }
}

fn push_hex(out: &mut Vec<u8>, v: u128, width: usize)
    ensures
        final(out)@ == old(out)@ + hex(v as nat, width as nat),
    decreases width,
{
    if width > 0 {
        push_hex(out, v / 16, width - 1);
        out.push(digit_of((v % 16) as u8));
        assert(out@ =~= old(out)@ + hex(v as nat, width as nat));
    } else {
        assert(out@ =~= old(out)@ + hex(v as nat, width as nat));
    }
}

/// Writes a share set as bytes.
pub fn share_set_bytes(shares: &Vec<i128>) -> (text: Vec<u8>)
    ensures
        text@ == share_text(shares@),
{
    let mut text: Vec<u8> = Vec::new();
    let mut i: usize = 0;
    while i < shares.len()
        invariant
            i <= shares.len(),
            text@ == share_text(shares@.take(i as int)),
        decreases shares.len() - i,
    {
        let share = shares[i];
        let shifted: u128 = if share >= 0 {
            share as u128 + WORD_OFFSET
        } else {
            (share - i128::MIN) as u128
        };
        proof {
            assert(shares@.take(i + 1).drop_last() =~= shares@.take(i as int));
            assert(shares@.take(i + 1).last() == share);
        }
        push_hex(&mut text, shifted, WORD_DIGITS);
        i += 1;
    }
    assert(shares@.take(shares.len() as int) =~= shares@);
    text
}

fn digit_text(b: u8) -> (s: &'static str)
    requires
        digit_value(b) is Some,
    ensures
        s@ == seq![b as char],
{
    let s = match b {
        48 => "0",
        49 => "1",
        50 => "2",
        51 => "3",
        52 => "4",
        53 => "5",
        54 => "6",
        55 => "7",
        56 => "8",
        57 => "9",
        97 => "a",
        98 => "b",
        99 => "c",
        100 => "d",
        101 => "e",
        _ => "f",
    };
    proof {
        reveal_strlit("0");
        reveal_strlit("1");
        reveal_strlit("2");
        reveal_strlit("3");
        reveal_strlit("4");
        reveal_strlit("5");
        reveal_strlit("6");
        reveal_strlit("7");
        reveal_strlit("8");
        reveal_strlit("9");
        reveal_strlit("a");
        reveal_strlit("b");
        reveal_strlit("c");
        reveal_strlit("d");
        reveal_strlit("e");
        reveal_strlit("f");
        assert(s@ =~= seq![b as char]);
    }
    s
}

/// Writes a share set as the text that is encrypted.
pub fn encode_share_set(shares: &Vec<i128>) -> (text: String)
    ensures
        text@ == text_of(share_text(shares@)),
        is_ascii_chars(text@),
        encode_utf8(text@) == share_text(shares@),
{
    let bytes = share_set_bytes(shares);
    proof {
        lemma_share_text_shape(shares@);
        lemma_text_bytes(bytes@);
    }
    let mut text = String::new();
    let mut i: usize = 0;
    while i < bytes.len()
        invariant
            i <= bytes.len(),
            all_digits(bytes@),
            text@ == text_of(bytes@.take(i as int)),
        decreases bytes.len() - i,
    {
        text.append(digit_text(bytes[i]));
        assert(text@ =~= text_of(bytes@.take(i + 1)));
        i += 1;
    }
    assert(bytes@.take(bytes.len() as int) =~= bytes@);
    text
}

fn read_word(text: &[u8], start: usize) -> (r: Option<i128>)
    requires
        start + WORD_DIGITS <= text.len(),
    ensures
        r == unword(text@.subrange(start as int, start + WORD_DIGITS)),
{
    let ghost digits = text@.subrange(start as int, start + WORD_DIGITS);
    let mut acc: u128 = 0;
    let mut p: usize = 0;
    proof {
        lemma_pow16_word();
    }
    while p < WORD_DIGITS
        invariant
            start + WORD_DIGITS <= text.len(),
            digits == text@.subrange(start as int, start + WORD_DIGITS),
            p <= WORD_DIGITS,
            unhex(digits.take(p as int)) == Some(acc as nat),
            acc < pow16(p as nat),
            pow16(WORD_DIGITS as nat) == 0x1_0000_0000_0000_0000_0000_0000_0000_0000,
        decreases WORD_DIGITS - p,
    {
        let ghost upto = digits.take(p + 1);
        proof {
            assert(upto.drop_last() =~= digits.take(p as int));
            assert(upto.last() == text[start + p]);
            lemma_pow16_monotone((p + 1) as nat, WORD_DIGITS as nat);
        }
        match value_of(text[start + p]) {
            Some(low) => {
                acc = 16 * acc + low as u128;
            },
            None => {
                proof {
                    assert(unhex(upto) is None);
                    lemma_unhex_prefix(digits, p + 1);
                }
                return None;
            },
        }
        p += 1;
    }
    assert(digits.take(WORD_DIGITS as int) =~= digits);
    if acc >= WORD_OFFSET {
        Some((acc - WORD_OFFSET) as i128)
    } else {
        Some(acc as i128 + i128::MIN)
    }
}

proof fn lemma_pow16_monotone(m: nat, n: nat)
    requires
        m <= n,
    ensures
        pow16(m) <= pow16(n),
    decreases n,
{
    if m < n {
        lemma_pow16_monotone(m, (n - 1) as nat);
    }
}

proof fn lemma_unhex_prefix(digits: Seq<u8>, len: int)
    requires
        0 <= len <= digits.len(),
        unhex(digits.take(len)) is None,
    ensures
        unhex(digits) is None,
    decreases digits.len(),
{
    if len < digits.len() {
        assert(digits.drop_last().take(len) =~= digits.take(len));
        lemma_unhex_prefix(digits.drop_last(), len);
    } else {
        assert(digits.take(len) =~= digits);
    }
}

proof fn lemma_parsed_prefix(text: Seq<u8>, words: int)
    requires
        0 <= words,
        words * WORD_DIGITS <= text.len(),
        parsed(text.take(words * WORD_DIGITS)) is None,
    ensures
        parsed(text) is None,
    decreases text.len(),
{
    let len = words * WORD_DIGITS;
    if len < text.len() {
        if text.len() >= WORD_DIGITS {
            let cut = text.len() - WORD_DIGITS;
            if len <= cut {
                assert(text.take(cut).take(len) =~= text.take(len));
                lemma_parsed_prefix(text.take(cut), words);
            } else {
                lemma_parsed_length(text);
                lemma_parsed_length(text.take(len));
            }
        }
    } else {
        assert(text.take(len) =~= text);
    }
}

proof fn lemma_parsed_length(text: Seq<u8>)
    ensures
        parsed(text) is Some ==> text.len() % (WORD_DIGITS as nat) == 0 && parsed(
            text,
        ).unwrap().len() * WORD_DIGITS == text.len(),
    decreases text.len(),
{
    if text.len() >= WORD_DIGITS {
        lemma_parsed_length(text.take(text.len() - WORD_DIGITS));
    }
}

/// Reads a share set from the bytes of its text.
pub fn decode_share_set(text: &[u8]) -> (r: Option<Vec<i128>>)
    ensures
        match r {
            Some(shares) => parsed(text@) == Some(shares@),
            None => parsed(text@) is None,
        },
{
    let len = text.len();
    if len % WORD_DIGITS != 0 {
        proof {
            lemma_parsed_length(text@);
        }
        return None;
    }
    let count = len / WORD_DIGITS;
    let mut shares: Vec<i128> = Vec::new();
    let mut i: usize = 0;
    assert(text@.take(0) =~= Seq::<u8>::empty());
    while i < count
        invariant
            len == text.len(),
            count * WORD_DIGITS == len,
            i <= count,
            parsed(text@.take(i * WORD_DIGITS)) == Some(shares@),
        decreases count - i,
    {
        let start = i * WORD_DIGITS;
        let ghost upto = text@.take(start + WORD_DIGITS);
        proof {
            assert(upto.take(start as int) =~= text@.take(start as int));
            assert(upto.skip(start as int) =~= text@.subrange(start as int, start + WORD_DIGITS));
            assert((i + 1) * WORD_DIGITS == start + WORD_DIGITS);
        }
        match read_word(text, start) {
            Some(share) => {
                shares.push(share);
            },
            None => {
                proof {
                    assert(parsed(upto) is None);
                    lemma_parsed_prefix(text@, i + 1);
                }
                return None;
            },
        }
        i += 1;
    }
    assert(text@.take(len as int) =~= text@);
    Some(shares)
}

} // verus!
