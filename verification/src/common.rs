//! Text forms of bytes and numbers.

use vstd::prelude::*;

verus! {

/// The lower-case hexadecimal digit of `n`.
pub open spec fn hex_char(n: int) -> char {
    if n < 10 {
        (48 + n) as char
    } else {
        (87 + n) as char
    }
}

/// Two hexadecimal digits for each byte, the high half first.
pub open spec fn hex(bytes: Seq<u8>) -> Seq<char> {
    Seq::new(
        2 * bytes.len(),
        |i: int| hex_char(if i % 2 == 0 { bytes[i / 2] as int / 16 } else { bytes[i / 2] as int % 16 }),
    )
}

/// The decimal digits of `n`, without leading zeros.
pub open spec fn decimal(n: nat) -> Seq<char>
    decreases n,
{
    if n < 10 {
        seq![(48 + n) as char]
    } else {
        decimal(n / 10).push((48 + n % 10) as char)
    }
}

fn hex_digit(n: u8) -> (r: &'static str)
    requires
        n < 16,
    ensures
        r@ == seq![hex_char(n as int)],
{
    proof {
        reveal_strlit("0");
        reveal_strlit("1");
        reveal_strlit("2");
        reveal_strlit("3");
        reveal_strlit("4");
        reveal_strlit("5");
        reveal_strlit("6");
        reveal_strlit("7");
        reveal_strlit("8");
        reveal_strlit("9");
        reveal_strlit("a");
        reveal_strlit("b");
        reveal_strlit("c");
        reveal_strlit("d");
        reveal_strlit("e");
        reveal_strlit("f");
    }
    match n {
        0 => "0",
        1 => "1",
        2 => "2",
        3 => "3",
        4 => "4",
        5 => "5",
        6 => "6",
        7 => "7",
        8 => "8",
        9 => "9",
        10 => "a",
        11 => "b",
        12 => "c",
        13 => "d",
        14 => "e",
        _ => "f",
    }
}

/// The bytes as lower-case hexadecimal digits.
pub fn hex_string(bytes: &[u8]) -> (r: String)
    requires
        bytes@.len() > 0,
    ensures
        r@ == hex(bytes@),
{
    let mut text = String::new();
    let n = bytes.len();
    let mut i: usize = 0;
    while i < n
        invariant
            n == bytes@.len(),
            i <= n,
            text@ == hex(bytes@.subrange(0, i as int)),
        decreases n - i,
    {
        let ghost before = text@;
        text.append(hex_digit(bytes[i] / 16));
        text.append(hex_digit(bytes[i] % 16));
        proof {
            let b = bytes@[i as int];
            assert(text@ =~= before.push(hex_char(b as int / 16)).push(hex_char(b as int % 16)));
            let longer = hex(bytes@.subrange(0, i + 1));
            assert forall|j: int| 0 <= j < longer.len() implies #[trigger] text@[j] == longer[j] by {
                if j < 2 * i {
                    assert(before[j] == hex(bytes@.subrange(0, i as int))[j]);
                } else {
                    assert(j / 2 == i);
                }
            }
            assert(text@ =~= longer);
        }
        i += 1;
    }
    assert(bytes@.subrange(0, n as int) =~= bytes@);
    text
}

/// The number in decimal digits.
pub fn decimal_string(n: u64) -> (r: String)
    ensures
        r@ == decimal(n as nat),
    decreases n,
{
    let digit = (n % 10) as u8;
    if n < 10 {
        let mut text = String::new();
        text.append(hex_digit(digit));
        assert(text@ =~= decimal(n as nat));
        text
    } else {
        let mut text = decimal_string(n / 10);
        text.append(hex_digit(digit));
        assert(text@ =~= decimal(n as nat));
        text
    }
}

/// Whether the two byte strings are the same.
pub fn same_bytes(a: &[u8; 32], b: &[u8; 32]) -> (r: bool)
    ensures
        r == (*a == *b),
{
    let mut i: usize = 0;
    while i < 32
        invariant
            i <= 32,
            forall|j: int| 0 <= j < i ==> #[trigger] a@[j] == b@[j],
        decreases 32 - i,
    {
        if a[i] != b[i] {
            return false;
        }
        i += 1;
    }
    assert(*a =~= *b);
    true
}

/// The array that holds the 32 bytes of `s`.
pub open spec fn bytes32(s: Seq<u8>) -> [u8; 32] {
    choose|a: [u8; 32]| a@ == s
}

pub proof fn lemma_bytes32(a: [u8; 32])
    ensures
        bytes32(a@) == a,
{
    let b = bytes32(a@);
    assert(b@ == a@);
    assert(b =~= a);
}

/// Different numbers have different digits.
pub proof fn decimal_is_injective(a: nat, b: nat)
    requires
        decimal(a) == decimal(b),
    ensures
        a == b,
    decreases a,
{
    let (s, t) = (decimal(a), decimal(b));
    assert(decimal(a).len() >= 1 && decimal(b).len() >= 1);
    assert(s.last() == (48 + a % 10) as char);
    assert(t.last() == (48 + b % 10) as char);
    assert(a % 10 == b % 10);
    if a >= 10 {
        lemma_decimal_nonempty(a / 10);
        assert(s.drop_last() =~= decimal(a / 10));
        assert(t.drop_last() =~= decimal(b / 10));
        decimal_is_injective(a / 10, b / 10);
    } else if b >= 10 {
        lemma_decimal_nonempty(b / 10);
    }
}

proof fn lemma_decimal_nonempty(n: nat)
    ensures
        decimal(n).len() >= 1,
    decreases n,
{
    if n >= 10 {
        lemma_decimal_nonempty(n / 10);
    }
}

/// The number that decimal digits spell, the most significant first.
pub open spec fn value_of_digits(digits: Seq<char>) -> int
    decreases digits.len(),
{
    if digits.len() == 0 {
        0
    } else {
        10 * value_of_digits(digits.drop_last()) + (digits.last() as int - '0' as int)
    }
}

/// The text of a number is made of decimal digits that spell it, without leading
/// zeros.
pub proof fn decimal_digits_spell_the_number(n: nat)
    ensures
        decimal(n).len() >= 1,
        value_of_digits(decimal(n)) == n,
        forall|i: int| 0 <= i < decimal(n).len() ==> '0' <= #[trigger] decimal(n)[i] <= '9',
        n > 0 ==> decimal(n)[0] != '0',
    decreases n,
{
    if n >= 10 {
        let front = decimal(n / 10);
        decimal_digits_spell_the_number(n / 10);
        assert(decimal(n).drop_last() =~= front);
    } else {
        assert(decimal(n).drop_last() =~= Seq::empty());
        assert(value_of_digits(decimal(n).drop_last()) == 0);
    }
}

/// The text of bytes has two lower-case hexadecimal digits for each of them, the one
/// that counts sixteen first.
pub proof fn hex_digits_spell_the_bytes(bytes: Seq<u8>, i: int)
    requires
        0 <= i < bytes.len(),
    ensures
        hex(bytes).len() == 2 * bytes.len(),
        hex(bytes)[2 * i] == "0123456789abcdef"@[bytes[i] as int / 16],
        hex(bytes)[2 * i + 1] == "0123456789abcdef"@[bytes[i] as int % 16],
{
    reveal_strlit("0123456789abcdef");
    assert((2 * i) / 2 == i && (2 * i) % 2 == 0);
    assert((2 * i + 1) / 2 == i && (2 * i + 1) % 2 == 1);
}

/// Whether tracing is switched off by the value of its environment variable.
pub fn tracing_disabled(value: Option<String>) -> (r: bool)
    ensures
        r == (value matches Some(text) && text@ == "true"@),
{
    match value {
        Some(text) => text == "true".to_owned(),
        None => false,
    }
}

} // verus!
