//! Texts for people to read.
use bstr::ByteSlice;
use vstd::prelude::*;
use vstd::string::StringExecFns;

verus! {

/// The decimal digit of a number below ten.
pub open spec fn digit(n: nat) -> char {
    (48 + n) as char
}

/// A number in decimal.
pub open spec fn decimal(n: nat) -> Seq<char>
    decreases n,
{
    if n < 10 {
        seq![digit(n)]
    } else {
        decimal(n / 10).push(digit(n % 10))
    }
}

/// Bytes in decimal, with a comma and a space between them.
pub open spec fn decimals(bytes: Seq<u8>) -> Seq<char>
    decreases bytes.len(),
{
    if bytes.len() == 0 {
        Seq::empty()
    } else if bytes.len() == 1 {
        decimal(bytes[0] as nat)
    } else {
        decimals(bytes.drop_last()) + seq![',', ' '] + decimal(bytes.last() as nat)
    }
}

/// A list of bytes: the bytes in decimal, in brackets.
pub open spec fn bytes_debug(bytes: Seq<u8>) -> Seq<char> {
    seq!['['] + decimals(bytes) + seq![']']
}

/// The text of a byte string as the `core::fmt::Debug` of `bstr::BStr` gives it.
pub uninterp spec fn bstr_debug(bytes: Seq<u8>) -> Seq<char>;

/// Appends a byte in decimal.
fn push_decimal(text: &mut String, byte: u8)
    ensures
        final(text)@ == old(text)@ + decimal(byte as nat),
{
    proof {
        reveal_with_fuel(decimal, 3);
    }
    if byte >= 100 {
        text.push((48 + byte / 100) as char);
    }
    if byte >= 10 {
        text.push((48 + byte / 10 % 10) as char);
    }
    text.push((48 + byte % 10) as char);
    assert(text@ =~= old(text)@ + decimal(byte as nat));
}

/// The text of a list of bytes.
pub fn debug_bytes(bytes: &[u8]) -> (text: String)
    ensures
        text@ == bytes_debug(bytes@),
{
    let mut text = String::new();
    text.push('[');
    let mut i: usize = 0;
    assert(text@ =~= seq!['['] + decimals(bytes@.take(0)));
    while i < bytes.len()
        invariant
            i <= bytes@.len(),
            text@ == seq!['['] + decimals(bytes@.take(i as int)),
        decreases bytes@.len() - i,
    {
        let ghost before = text@;
        if i > 0 {
            text.push(',');
            text.push(' ');
        }
        push_decimal(&mut text, bytes[i]);
        proof {
            let next = bytes@.take(i + 1);
            assert(next.drop_last() =~= bytes@.take(i as int));
            assert(next.last() == bytes@[i as int]);
            assert(text@ =~= seq!['['] + decimals(next));
        }
        i += 1;
    }
    assert(bytes@.take(i as int) =~= bytes@);
    text.push(']');
    assert(text@ =~= bytes_debug(bytes@));
    text
}

/// `core::fmt::Debug` of `bstr::BStr`: a text that the bytes alone decide.
#[verifier::external_body]
pub(crate) fn debug_bstr(bytes: &[u8]) -> (text: String)
    ensures
        text@ == bstr_debug(bytes@),
{
    format!("{:?}", bytes.as_bstr())
}

/// A text between two others.
pub fn enclose(before: &str, text: &str, after: &str) -> (enclosed: String)
    ensures
        enclosed@ == before@ + text@ + after@,
{
    before.to_owned().concat(text).concat(after)
}

} // verus!
