//! Numbers and network addresses as text.

use vstd::prelude::*;

verus! {

/// The character of a decimal digit.
pub open spec fn digit_char(d: nat) -> char {
    (48 + d) as char
}

/// A number in decimal notation, without leading zeros.
pub open spec fn decimal(n: nat) -> Seq<char>
    decreases n,
{
    if n < 10 {
        seq![digit_char(n)]
    } else {
        decimal(n / 10).push(digit_char(n % 10))
    }
}

/// A number in decimal notation, with a minus sign when it is negative.
pub open spec fn signed_decimal(n: int) -> Seq<char> {
    if n < 0 {
        seq!['-'] + decimal((-n) as nat)
    } else {
        decimal(n as nat)
    }
}

/// An IPv4 address as its four bytes in decimal notation, with dots between them.
pub open spec fn ipv4_text(bits: u32) -> Seq<char> {
    decimal((bits / 0x1000000) as nat) + seq!['.'] + decimal((bits / 0x10000 % 0x100) as nat) + seq![
        '.',
    ] + decimal((bits / 0x100 % 0x100) as nat) + seq!['.'] + decimal((bits % 0x100) as nat)
}

/// The text of the IPv6 address with these bits, in the notation that `std` prints: hexadecimal
/// groups with the longest run of zero groups left out, and a dotted decimal tail where an IPv4
/// address is mapped into IPv6.
pub uninterp spec fn ipv6_text(bits: u128) -> Seq<char>;

fn digit_text(d: u64) -> (text: &'static str)
    requires
        d < 10,
    ensures
        text@ == seq![digit_char(d as nat)],
{
    proof {
        reveal_strlit("0");
        reveal_strlit("1");
        reveal_strlit("2");
        reveal_strlit("3");
        reveal_strlit("4");
        reveal_strlit("5");
        reveal_strlit("6");
        reveal_strlit("7");
        reveal_strlit("8");
        reveal_strlit("9");
    }
    let text: &'static str = if d == 0 {
        "0"
    } else if d == 1 {
        "1"
    } else if d == 2 {
        "2"
    } else if d == 3 {
        "3"
    } else if d == 4 {
        "4"
    } else if d == 5 {
        "5"
    } else if d == 6 {
        "6"
    } else if d == 7 {
        "7"
    } else if d == 8 {
        "8"
    } else {
        "9"
    };
    assert(text@ =~= seq![digit_char(d as nat)]);
    text
}

/// Writes a number in decimal notation.
pub fn decimal_text(n: u64) -> (text: String)
    ensures
        text@ == decimal(n as nat),
    decreases n,
{
    if n < 10 {
        digit_text(n).to_owned()
    } else {
        let mut text: String = decimal_text(n / 10);
        text.append(digit_text(n % 10));
        assert(text@ =~= decimal(n as nat));
        text
    }
}

/// Writes a number in decimal notation, with its sign when it is negative.
pub fn signed_decimal_text(n: i64) -> (text: String)
    ensures
        text@ == signed_decimal(n as int),
{
    if n < 0 {
        proof {
            reveal_strlit("-");
        }
        let mut text: String = "-".to_owned();
        let size: u64 = if n == i64::MIN {
            0x8000_0000_0000_0000
        } else {
            (-n) as u64
        };
        let digits: String = decimal_text(size);
        text.append(digits.as_str());
        assert(text@ =~= signed_decimal(n as int));
        text
    } else {
        decimal_text(n as u64)
    }
}

/// Writes an IPv4 address in dotted decimal notation.
pub fn ipv4_to_text(bits: u32) -> (text: String)
    ensures
        text@ == ipv4_text(bits),
{
    proof {
        reveal_strlit(".");
    }
    let mut text: String = decimal_text((bits / 0x1000000) as u64);
    text.append(".");
    text.append(decimal_text((bits / 0x10000 % 0x100) as u64).as_str());
    text.append(".");
    text.append(decimal_text((bits / 0x100 % 0x100) as u64).as_str());
    text.append(".");
    text.append(decimal_text((bits % 0x100) as u64).as_str());
    assert("."@ =~= seq!['.']);
    assert(text@ =~= ipv4_text(bits));
    text
}

/// Writes an IPv6 address, as `Ipv6Network::ip` of the `ipnetwork` crate hands it back and `std`
/// prints it. The text is only named here: what is claimed is that it depends on the address
/// alone.
#[verifier::external_body]
pub(crate) fn ipv6_to_text(bits: u128) -> (text: String)
    ensures
        text@ == ipv6_text(bits),
{
    ipnetwork::Ipv6Network::new(bits.into(), 128).unwrap().ip().to_string()
}

/// Writes an IPv4 network: its address, a slash and the length of its prefix.
pub(crate) fn ipv4_network_to_text(bits: u32, prefix: u8) -> (text: String)
    ensures
        text@ == ipv4_text(bits) + seq!['/'] + decimal(prefix as nat),
{
    proof {
        reveal_strlit("/");
    }
    let mut text: String = ipv4_to_text(bits);
    text.append("/");
    text.append(decimal_text(prefix as u64).as_str());
    assert("/"@ =~= seq!['/']);
    text
}

/// Writes an IPv6 network with the `Display` of `ipnetwork::Ipv6Network`: the address that the
/// network was made of, a slash and the prefix length. `Ipv6Network::new` refuses prefixes above
/// 128, which are left out here.
#[verifier::external_body]
pub(crate) fn ipv6_network_to_text(bits: u128, prefix: u8) -> (text: String)
    requires
        prefix <= 128,
    ensures
        text@ == ipv6_text(bits) + seq!['/'] + decimal(prefix as nat),
{
    ipnetwork::Ipv6Network::new(bits.into(), prefix).unwrap().to_string()
}

/// The number that decimal digits stand for.
pub open spec fn digits_value(text: Seq<char>) -> int
    decreases text.len(),
{
    if text.len() == 0 {
        0
    } else {
        10 * digits_value(text.drop_last()) + (text.last() as int - '0' as int)
    }
}

/// The text of a number consists of digits, does not start with a zero unless it is "0", and stands
/// for the number.
pub proof fn lemma_decimal_reads_back(n: nat)
    ensures
        decimal(n).len() > 0,
        forall|i: int| 0 <= i < decimal(n).len() ==> '0' <= #[trigger] decimal(n)[i] <= '9',
        decimal(n)[0] == '0' ==> decimal(n).len() == 1,
        digits_value(decimal(n)) == n,
    decreases n,
{
    let text = decimal(n);
    if n < 10 {
        assert(text.drop_last() =~= Seq::<char>::empty());
        assert(digits_value(text.drop_last()) == 0);
    } else {
        lemma_decimal_reads_back(n / 10);
        assert(text.drop_last() =~= decimal(n / 10));
        assert(text[0] == decimal(n / 10)[0]);
        if text[0] == '0' {
            let rest = decimal(n / 10);
            assert(rest.len() == 1);
            assert(rest.drop_last() =~= Seq::<char>::empty());
            assert(digits_value(rest.drop_last()) == 0);
            assert(digits_value(rest) == 0);
        }
        assert forall|i: int| 0 <= i < text.len() implies '0' <= #[trigger] text[i] <= '9' by {
            if i < text.len() - 1 {
                assert(text[i] == decimal(n / 10)[i]);
            }
        }
    }
}

/// The text of a negative number is a minus sign before that of its opposite, and any other number
/// has no sign.
pub proof fn lemma_signed_decimal_reads_back(n: int)
    ensures
        signed_decimal(n).len() > 0,
        signed_decimal(n)[0] == '-' <==> n < 0,
        n < 0 ==> digits_value(signed_decimal(n).drop_first()) == -n,
        n >= 0 ==> digits_value(signed_decimal(n)) == n,
{
    if n < 0 {
        lemma_decimal_reads_back((-n) as nat);
        assert(signed_decimal(n).drop_first() =~= decimal((-n) as nat));
    } else {
        lemma_decimal_reads_back(n as nat);
    }
}

/// The text of an IPv4 address is its four bytes, the most significant one first, with dots between
/// them.
pub proof fn lemma_ipv4_text_is_its_bytes(bits: u32, a: u8, b: u8, c: u8, d: u8)
    requires
        bits == a * 0x1000000 + b * 0x10000 + c * 0x100 + d,
    ensures
        ipv4_text(bits) == decimal(a as nat) + seq!['.'] + decimal(b as nat) + seq!['.'] + decimal(
            c as nat,
        ) + seq!['.'] + decimal(d as nat),
{
    assert(bits / 0x1000000 == a);
    assert(bits / 0x10000 == a * 0x100 + b);
    assert(bits / 0x10000 % 0x100 == b);
    assert(bits / 0x100 == a * 0x10000 + b * 0x100 + c);
    assert(bits / 0x100 % 0x100 == c);
    assert(bits % 0x100 == d);
}

} // verus!
