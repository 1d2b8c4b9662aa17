//! Cluster identifiers: the word `cluster_` followed by a serial number in
//! decimal. Different serial numbers give different identifiers.

use vstd::prelude::*;

verus! {

/// The character that writes a digit.
pub open spec fn digit(d: nat) -> char {
    if d == 0 {
        '0'
    } else if d == 1 {
        '1'
    } else if d == 2 {
        '2'
    } else if d == 3 {
        '3'
    } else if d == 4 {
        '4'
    } else if d == 5 {
        '5'
    } else if d == 6 {
        '6'
    } else if d == 7 {
        '7'
    } else if d == 8 {
        '8'
    } else {
        '9'
    }
}

/// The digit that a character writes; zero for any other character.
pub open spec fn digit_value(c: char) -> nat {
    if c == '1' {
        1
    } else if c == '2' {
        2
    } else if c == '3' {
        3
    } else if c == '4' {
        4
    } else if c == '5' {
        5
    } else if c == '6' {
        6
    } else if c == '7' {
        7
    } else if c == '8' {
        8
    } else if c == '9' {
        9
    } else {
        0
    }
}

/// A number written in decimal, without leading zeros.
pub open spec fn decimal(n: nat) -> Seq<char>
    decreases n,
{
    if n < 10 {
        seq![digit(n)]
    } else {
        decimal(n / 10).push(digit(n % 10))
    }
}

/// The number that a string of digits writes.
pub open spec fn parse_decimal(text: Seq<char>) -> nat
    decreases text.len(),
{
    if text.len() == 0 {
        0
    } else {
        parse_decimal(text.drop_last()) * 10 + digit_value(text.last())
    }
}

/// What every cluster identifier starts with.
pub open spec fn name_prefix() -> Seq<char> {
    seq!['c', 'l', 'u', 's', 't', 'e', 'r', '_']
}

/// The identifier of the cluster with the given serial number.
pub open spec fn cluster_name(serial: nat) -> Seq<char> {
    name_prefix() + decimal(serial)
}

/// The serial number that an identifier carries.
pub open spec fn serial_of(id: Seq<char>) -> nat {
    parse_decimal(id.skip(8))
}

/// Reading back a number written in decimal gives the number.
pub proof fn lemma_parse_decimal(n: nat)
    ensures
        parse_decimal(decimal(n)) == n,
    decreases n,
{
    if n < 10 {
        let text = decimal(n);
        assert(text.drop_last() =~= Seq::<char>::empty());
        assert(parse_decimal(text.drop_last()) == 0);
        assert(text.last() == digit(n));
    } else {
        lemma_parse_decimal(n / 10);
        let text = decimal(n);
        assert(text.drop_last() =~= decimal(n / 10));
        assert(text.last() == digit(n % 10));
    }
}

/// An identifier carries the serial number it was made from, so two
/// identifiers are equal only if their serial numbers are.
pub proof fn lemma_serial_of_name(serial: nat)
    ensures
        serial_of(cluster_name(serial)) == serial,
{
    assert(cluster_name(serial).skip(8) =~= decimal(serial));
    lemma_parse_decimal(serial);
}

fn digit_text(d: u64) -> (text: &'static str)
    requires
        d < 10,
    ensures
        text@ == seq![digit(d as nat)],
{
    proof {
        reveal_strlit("0");
        reveal_strlit("1");
        reveal_strlit("2");
        reveal_strlit("3");
        reveal_strlit("4");
        reveal_strlit("5");
        reveal_strlit("6");
        reveal_strlit("7");
        reveal_strlit("8");
        reveal_strlit("9");
    }
    let text = if d == 0 {
        "0"
    } else if d == 1 {
        "1"
    } else if d == 2 {
        "2"
    } else if d == 3 {
        "3"
    } else if d == 4 {
        "4"
    } else if d == 5 {
        "5"
    } else if d == 6 {
        "6"
    } else if d == 7 {
        "7"
    } else if d == 8 {
        "8"
    } else {
        "9"
    };
    assert(text@ =~= seq![digit(d as nat)]);
    text
}

/// Appends a number in decimal to a text.
pub fn append_decimal(text: &mut String, n: u64)
    ensures
        final(text)@ == old(text)@ + decimal(n as nat),
    decreases n,
{
    if n >= 10 {
        append_decimal(text, n / 10);
    }
    text.append(digit_text(n % 10));
    assert(text@ =~= old(text)@ + decimal(n as nat));
}

/// Writes the identifier of the cluster with the given serial number.
pub fn make_cluster_name(serial: u32) -> (id: String)
    ensures
        id@ == cluster_name(serial as nat),
{
    proof {
        reveal_strlit("cluster_");
    }
    let mut id = String::from_str("cluster_");
    assert(id@ =~= name_prefix());
    append_decimal(&mut id, serial as u64);
    id
}

} // verus!
