//! Names for matches: unique, and in the order of their making when sorted.

use vstd::arithmetic::div_mod::lemma_div_denominator;
use vstd::arithmetic::power::{lemma_pow0, lemma_pow1, lemma_pow_positive, pow};
use vstd::prelude::*;

use crate::clock::{calendar_reads, stamp_at, stamp_now};
use crate::metrics::wrapped_sum;

verus! {

/// The hexadecimal digit for a value below sixteen.
pub open spec fn hex_digit(d: nat) -> char {
    if d < 10 {
        (('0' as u32) + d) as char
    } else {
        (('a' as u32) + (d - 10)) as char
    }
}

/// `n` in lower-case hexadecimal, with zeros in front where it has fewer than
/// `width` digits.
pub open spec fn hex_text(n: nat, width: nat) -> Seq<char>
    decreases n, width,
{
    if n < 16 && width <= 1 {
        seq![hex_digit(n)]
    } else {
        hex_text(n / 16, if width > 0 {
            (width - 1) as nat
        } else {
            0
        }).push(hex_digit(n % 16))
    }
}

/// The id of the match with number `seq` that was made `micros` microseconds
/// after the start of 1970.
pub open spec fn match_id_text(micros: nat, seq: nat) -> Seq<char> {
    "match-"@ + hex_text(micros, 16) + "-"@ + hex_text(seq, 8)
}

fn digit_text(d: u8) -> (s: &'static str)
    requires
        d < 16,
    ensures
        s@ == seq![hex_digit(d as nat)],
{
    proof {
        reveal_strlit("0");
        reveal_strlit("1");
        reveal_strlit("2");
        reveal_strlit("3");
        reveal_strlit("4");
        reveal_strlit("5");
        reveal_strlit("6");
        reveal_strlit("7");
        reveal_strlit("8");
        reveal_strlit("9");
        reveal_strlit("a");
        reveal_strlit("b");
        reveal_strlit("c");
        reveal_strlit("d");
        reveal_strlit("e");
        reveal_strlit("f");
    }
    let s: &'static str = match d {
        0 => "0",
        1 => "1",
        2 => "2",
        3 => "3",
        4 => "4",
        5 => "5",
        6 => "6",
        7 => "7",
        8 => "8",
        9 => "9",
        10 => "a",
        11 => "b",
        12 => "c",
        13 => "d",
        14 => "e",
        _ => "f",
    };
    assert(s@ =~= seq![hex_digit(d as nat)]);
    s
}

/// Appends `n` in hexadecimal to `text`, with at least `width` digits.
fn append_hex(text: &mut String, n: u128, width: usize)
    ensures
        final(text)@ == old(text)@ + hex_text(n as nat, width as nat),
    decreases n, width,
{
    if n >= 16 || width > 1 {
        append_hex(text, n / 16, if width > 0 {
            width - 1
        } else {
            0
        });
    }
    text.append(digit_text((n % 16) as u8));
    assert(text@ =~= old(text)@ + hex_text(n as nat, width as nat));
}

/// Writes the id of a match from the time of its making and its number.
pub fn match_id(micros: u128, seq: u64) -> (id: String)
    ensures
        id@ == match_id_text(micros as nat, seq as nat),
{
    let mut id: String = String::from_str("match-");
    append_hex(&mut id, micros, 16);
    id.append("-");
    append_hex(&mut id, seq as u128, 8);
    id
}

/// Takes the next number and makes an id from it and the given time.
pub fn next_match_id(next_seq: &mut u64, micros: u128) -> (id: String)
    ensures
        id@ == match_id_text(micros as nat, *old(next_seq) as nat),
        *final(next_seq) == wrapped_sum(*old(next_seq), 1),
        *final(next_seq) == (*old(next_seq) + 1) % 0x1_0000_0000_0000_0000,
{
    let seq: u64 = *next_seq;
    *next_seq = seq.wrapping_add(1);
    match_id(micros, seq)
}

/// Takes the next number and makes an id from it and the present time.
pub fn new_match_id(next_seq: &mut u64) -> (id: String)
    ensures
        exists|reading: Option<u128>| calendar_reads(reading)
            && id@ == match_id_text((#[trigger] stamp_at(reading)).micros as nat, *old(next_seq) as nat),
        *final(next_seq) == wrapped_sum(*old(next_seq), 1),
        *final(next_seq) == (*old(next_seq) + 1) % 0x1_0000_0000_0000_0000,
{
    next_match_id(next_seq, stamp_now().micros)
}

/// Whether `a` comes before `b` in the dictionary order of character codes.
pub open spec fn text_before(a: Seq<char>, b: Seq<char>) -> bool {
    exists|k: int| first_difference(a, b, k)
}

/// `a` and `b` agree up to position `k`, where `a` ends or has the smaller character.
pub open spec fn first_difference(a: Seq<char>, b: Seq<char>, k: int) -> bool {
    &&& 0 <= k <= a.len()
    &&& k < b.len()
    &&& a.take(k) == b.take(k)
    &&& k == a.len() || (a[k] as u32) < (b[k] as u32)
}

/// How many numbers have at most `width` hexadecimal digits.
spec fn hex_limit(width: nat) -> nat
    decreases width,
{
    if width == 0 {
        1
    } else {
        16 * hex_limit((width - 1) as nat)
    }
}

proof fn lemma_hex_shape(n: nat, width: nat)
    ensures
        hex_text(n, width).len() >= 1,
        hex_text(n, width).len() == 1 <==> n < 16 && width <= 1,
        forall|i: int| 0 <= i < hex_text(n, width).len() ==> #[trigger] hex_text(n, width)[i] != '-',
    decreases n, width,
{
    if !(n < 16 && width <= 1) {
        lemma_hex_shape(n / 16, if width > 0 {
            (width - 1) as nat
        } else {
            0
        });
    }
}

proof fn lemma_digit_injective(d: nat, e: nat)
    requires
        d < 16,
        e < 16,
        hex_digit(d) == hex_digit(e),
    ensures
        d == e,
{
}

proof fn lemma_hex_injective(n: nat, m: nat, width: nat)
    requires
        hex_text(n, width) == hex_text(m, width),
    ensures
        n == m,
    decreases n, width,
{
    lemma_hex_shape(n, width);
    lemma_hex_shape(m, width);
    if n < 16 && width <= 1 {
        assert(hex_text(n, width)[0] == hex_digit(n));
        assert(hex_text(m, width)[0] == hex_digit(m));
        lemma_digit_injective(n, m);
    } else {
        let rest = if width > 0 {
            (width - 1) as nat
        } else {
            0
        };
        assert(hex_text(n, width).last() == hex_digit(n % 16));
        assert(hex_text(m, width).last() == hex_digit(m % 16));
        lemma_digit_injective(n % 16, m % 16);
        assert(hex_text(n, width).drop_last() =~= hex_text(n / 16, rest));
        assert(hex_text(m, width).drop_last() =~= hex_text(m / 16, rest));
        lemma_hex_injective(n / 16, m / 16, rest);
    }
}

proof fn lemma_split_at_dash(a1: Seq<char>, b1: Seq<char>, a2: Seq<char>, b2: Seq<char>)
    requires
        a1 + seq!['-'] + b1 == a2 + seq!['-'] + b2,
        forall|i: int| 0 <= i < a1.len() ==> #[trigger] a1[i] != '-',
        forall|i: int| 0 <= i < a2.len() ==> #[trigger] a2[i] != '-',
    ensures
        a1 == a2,
        b1 == b2,
{
    let x = a1 + seq!['-'] + b1;
    let y = a2 + seq!['-'] + b2;
    assert(x[a1.len() as int] == '-');
    assert(y[a2.len() as int] == '-');
    if a1.len() < a2.len() {
        assert(y[a1.len() as int] == a2[a1.len() as int]);
    }
    if a2.len() < a1.len() {
        assert(x[a2.len() as int] == a1[a2.len() as int]);
    }
    assert(a1 =~= x.take(a1.len() as int));
    assert(a2 =~= y.take(a2.len() as int));
    assert(b1 =~= x.skip(a1.len() as int + 1));
    assert(b2 =~= y.skip(a2.len() as int + 1));
}

proof fn lemma_fixed_width(n: nat, width: nat)
    requires
        n < hex_limit(width),
        width >= 1,
    ensures
        hex_text(n, width).len() == width,
    decreases width,
{
    if width > 1 {
        lemma_fixed_width(n / 16, (width - 1) as nat);
    } else {
        assert(hex_limit(0) == 1);
    }
}

proof fn lemma_hex_ordered(n: nat, m: nat, width: nat) -> (k: int)
    requires
        n < m,
        hex_text(n, width).len() == hex_text(m, width).len(),
    ensures
        0 <= k < hex_text(n, width).len(),
        hex_text(n, width).take(k) == hex_text(m, width).take(k),
        (hex_text(n, width)[k] as u32) < (hex_text(m, width)[k] as u32),
    decreases n, width,
{
    lemma_hex_shape(n, width);
    lemma_hex_shape(m, width);
    let x = hex_text(n, width);
    let y = hex_text(m, width);
    if n < 16 && width <= 1 {
        assert(x.take(0) =~= y.take(0));
        0
    } else {
        let rest = if width > 0 {
            (width - 1) as nat
        } else {
            0
        };
        let last = x.len() - 1;
        assert(x.take(last) =~= hex_text(n / 16, rest));
        assert(y.take(last) =~= hex_text(m / 16, rest));
        if n / 16 < m / 16 {
            let k = lemma_hex_ordered(n / 16, m / 16, rest);
            assert(x.take(k) =~= x.take(last).take(k));
            assert(y.take(k) =~= y.take(last).take(k));
            assert(x[k] == x.take(last)[k] && y[k] == y.take(last)[k]);
            k
        } else {
            assert(n / 16 == m / 16);
            last
        }
    }
}

/// Two matches have the same id only if they were made at the same time under
/// the same number. So ids under different numbers differ, whatever the time.
pub proof fn law_match_ids_are_unique(micros1: nat, seq1: nat, micros2: nat, seq2: nat)
    requires
        match_id_text(micros1, seq1) == match_id_text(micros2, seq2),
    ensures
        micros1 == micros2,
        seq1 == seq2,
{
    reveal_strlit("match-");
    reveal_strlit("-");
    lemma_hex_shape(micros1, 16);
    lemma_hex_shape(micros2, 16);
    let tail1 = hex_text(micros1, 16) + seq!['-'] + hex_text(seq1, 8);
    let tail2 = hex_text(micros2, 16) + seq!['-'] + hex_text(seq2, 8);
    assert("-"@ =~= seq!['-']);
    assert(match_id_text(micros1, seq1) =~= "match-"@ + tail1);
    assert(match_id_text(micros2, seq2) =~= "match-"@ + tail2);
    assert(tail1 =~= match_id_text(micros1, seq1).skip(6));
    assert(tail2 =~= match_id_text(micros2, seq2).skip(6));
    lemma_split_at_dash(hex_text(micros1, 16), hex_text(seq1, 8), hex_text(micros2, 16), hex_text(seq2, 8));
    lemma_hex_injective(micros1, micros2, 16);
    lemma_hex_injective(seq1, seq2, 8);
}

/// The number of the match that comes `k` matches after number `first`.
pub open spec fn number_after(first: u64, k: nat) -> u64
    decreases k,
{
    if k == 0 {
        first
    } else {
        wrapped_sum(number_after(first, (k - 1) as nat), 1)
    }
}

proof fn lemma_number_after(first: u64, k: nat)
    ensures
        number_after(first, k) == (first + k) % 0x1_0000_0000_0000_0000,
    decreases k,
{
    if k > 0 {
        lemma_number_after(first, (k - 1) as nat);
    }
}

/// However many matches are made one after the other, and whatever the clock
/// reads, no two have the same id, until the numbers have all been used.
pub proof fn law_no_id_is_given_twice(first: u64, micros: Seq<u128>, i: nat, j: nat)
    requires
        i < j < micros.len() <= 0x1_0000_0000_0000_0000,
    ensures
        match_id_text(micros[i as int] as nat, number_after(first, i) as nat) != match_id_text(
            micros[j as int] as nat,
            number_after(first, j) as nat,
        ),
{
    lemma_number_after(first, i);
    lemma_number_after(first, j);
    let x = match_id_text(micros[i as int] as nat, number_after(first, i) as nat);
    let y = match_id_text(micros[j as int] as nat, number_after(first, j) as nat);
    if x == y {
        law_match_ids_are_unique(
            micros[i as int] as nat,
            number_after(first, i) as nat,
            micros[j as int] as nat,
            number_after(first, j) as nat,
        );
    }
}

/// Ids are of one length as long as the time and the number fit the digits set
/// aside for them.
pub proof fn law_match_ids_have_one_length(micros: nat, seq: nat)
    requires
        micros < 0x1_0000_0000_0000_0000,
        seq < 0x1_0000_0000,
    ensures
        hex_text(micros, 16).len() == 16,
        hex_text(seq, 8).len() == 8,
        match_id_text(micros, seq).len() == 31,
{
    reveal_strlit("match-");
    reveal_strlit("-");
    reveal_with_fuel(hex_limit, 17);
    lemma_fixed_width(micros, 16);
    lemma_fixed_width(seq, 8);
}

/// In dictionary order, ids come in the order of their times, and at the same
/// time in the order of their numbers, as long as what decides has the same
/// number of digits in both.
pub proof fn law_match_ids_sort_by_time(micros1: nat, seq1: nat, micros2: nat, seq2: nat)
    requires
        micros1 <= micros2,
        hex_text(micros1, 16).len() == hex_text(micros2, 16).len(),
        micros1 == micros2 ==> seq1 < seq2 && hex_text(seq1, 8).len() == hex_text(seq2, 8).len(),
    ensures
        text_before(match_id_text(micros1, seq1), match_id_text(micros2, seq2)),
{
    reveal_strlit("match-");
    reveal_strlit("-");
    let a = match_id_text(micros1, seq1);
    let b = match_id_text(micros2, seq2);
    let h1 = hex_text(micros1, 16);
    let h2 = hex_text(micros2, 16);
    if micros1 < micros2 {
        let k = lemma_hex_ordered(micros1, micros2, 16);
        assert forall|i: int| 0 <= i < k implies h1[i] == h2[i] by {
            assert(h1.take(k)[i] == h2.take(k)[i]);
        }
        assert(a.take(k + 6) =~= b.take(k + 6));
        assert(first_difference(a, b, k + 6));
    } else {
        let k = lemma_hex_ordered(seq1, seq2, 8);
        let s1 = hex_text(seq1, 8);
        let s2 = hex_text(seq2, 8);
        assert forall|i: int| 0 <= i < k implies s1[i] == s2[i] by {
            assert(s1.take(k)[i] == s2.take(k)[i]);
        }
        let start = 7 + h1.len();
        assert(a.take(start + k) =~= b.take(start + k));
        assert(first_difference(a, b, start + k));
    }
}

proof fn lemma_hex_spells(n: nat, width: nat)
    ensures
        hex_text(n, width).len() >= 1,
        hex_text(n, width).len() >= width,
        n < pow(16, hex_text(n, width).len()),
        hex_text(n, width).len() > width && hex_text(n, width).len() > 1 ==> n >= pow(16, (hex_text(n, width).len() - 1) as nat),
        forall|i: int| 0 <= i < hex_text(n, width).len() ==> (#[trigger] hex_text(n, width)[i]) as u32 == ({
            let digit = (n as int / pow(16, (hex_text(n, width).len() - 1 - i) as nat)) % 16;
            if digit < 10 {
                48 + digit
            } else {
                87 + digit
            }
        }),
    decreases n, width,
{
    let h = hex_text(n, width);
    lemma_pow0(16);
    lemma_pow1(16);
    if n < 16 && width <= 1 {
        assert(n as int / 1 == n);
        assert(h[0] == hex_digit(n));
    } else {
        let less = if width > 0 {
            (width - 1) as nat
        } else {
            0
        };
        let rest = hex_text(n / 16, less);
        lemma_hex_spells(n / 16, less);
        let len = rest.len();
        assert(pow(16, len + 1) == 16 * pow(16, len)) by {
            reveal(pow);
        }
        if h.len() > width && h.len() > 1 {
            if len > 1 {
                assert(pow(16, len) == 16 * pow(16, (len - 1) as nat)) by {
                    reveal(pow);
                }
                assert(len > less);
            } else {
                assert(n >= 16);
            }
        }
        assert forall|i: int| 0 <= i < h.len() implies (#[trigger] h[i]) as u32 == ({
            let digit = (n as int / pow(16, (h.len() - 1 - i) as nat)) % 16;
            if digit < 10 {
                48 + digit
            } else {
                87 + digit
            }
        }) by {
            if i < len {
                let e = (len - 1 - i) as nat;
                assert(h[i] == rest[i]);
                assert(pow(16, e + 1) == 16 * pow(16, e)) by {
                    reveal(pow);
                }
                lemma_pow_positive(16, e);
                lemma_div_denominator(n as int, 16, pow(16, e));
                assert((n / 16) as int / pow(16, e) == n as int / pow(16, e + 1));
            } else {
                assert(h[i] == hex_digit(n % 16));
                assert(n as int / 1 == n);
            }
        }
    }
}

/// An id is the word `match`, the time and the number, with dashes between them. The
/// time and the number are written in hexadecimal, digit by digit, with sixteen and
/// eight digits or as many more as they need.
pub proof fn law_match_id_spells_time_and_number(micros: nat, seq: nat) -> (parts: (Seq<char>, Seq<char>))
    ensures
        match_id_text(micros, seq) == "match-"@ + parts.0 + "-"@ + parts.1,
        parts.0.len() >= 16,
        micros < pow(16, parts.0.len()),
        parts.0.len() > 16 ==> micros >= pow(16, (parts.0.len() - 1) as nat),
        forall|i: int| 0 <= i < parts.0.len() ==> (#[trigger] parts.0[i]) as u32 == ({
            let digit = (micros as int / pow(16, (parts.0.len() - 1 - i) as nat)) % 16;
            if digit < 10 {
                48 + digit
            } else {
                87 + digit
            }
        }),
        parts.1.len() >= 8,
        seq < pow(16, parts.1.len()),
        parts.1.len() > 8 ==> seq >= pow(16, (parts.1.len() - 1) as nat),
        forall|i: int| 0 <= i < parts.1.len() ==> (#[trigger] parts.1[i]) as u32 == ({
            let digit = (seq as int / pow(16, (parts.1.len() - 1 - i) as nat)) % 16;
            if digit < 10 {
                48 + digit
            } else {
                87 + digit
            }
        }),
{
    lemma_hex_spells(micros, 16);
    lemma_hex_spells(seq, 8);
    (hex_text(micros, 16), hex_text(seq, 8))
}

} // verus!
