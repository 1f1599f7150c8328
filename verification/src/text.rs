//! Building the short texts that name nodes and describe operators.
use vstd::prelude::*;
use vstd::string::StringExecFns;

verus! {

/// Appends one character to `s`. This is `String::push`: the text afterwards
/// is the text before, followed by `c`.
#[verifier::external_body]
pub(crate) fn push_char(s: &mut String, c: char)
    ensures
        final(s)@ == old(s)@.push(c),
{
    s.push(c);
}

/// The character that writes the digit `d`, for `d` below ten.
pub open spec fn digit_char(d: nat) -> char {
    ((48 + d) as u8) as char
}

/// The decimal text of `n`, without leading zeros.
pub open spec fn decimal(n: nat) -> Seq<char>
    decreases n,
{
    if n < 10 {
        seq![digit_char(n)]
    } else {
        decimal(n / 10).push(digit_char(n % 10))
    }
}

/// The text of a list of numbers as `[a, b, c]`, given what stands before the
/// closing bracket for the first `k` of them.
pub open spec fn list_items(items: Seq<usize>, k: nat) -> Seq<char>
    decreases k,
{
    if k == 0 {
        Seq::<char>::empty()
    } else if k == 1 {
        decimal(items[0] as nat)
    } else {
        list_items(items, (k - 1) as nat) + seq![',', ' '] + decimal(items[k - 1] as nat)
    }
}

/// The text of a list of numbers: `[]`, `[3]`, `[0, 2]`.
pub open spec fn list_text(items: Seq<usize>) -> Seq<char> {
    seq!['['] + list_items(items, items.len()) + seq![']']
}

/// Appends the decimal text of `n` to `s`.
pub fn append_decimal(s: &mut String, n: usize)
    ensures
        final(s)@ == old(s)@ + decimal(n as nat),
    decreases n,
{
    if n >= 10 {
        append_decimal(s, n / 10);
    }
    let d: u8 = (n % 10) as u8;
    push_char(s, (48u8 + d) as char);
    proof {
        let lead = if n >= 10 { decimal((n / 10) as nat) } else { Seq::<char>::empty() };
        assert(decimal(n as nat) == lead.push(digit_char((n % 10) as nat)));
        assert(s@ == old(s)@ + lead.push(digit_char((n % 10) as nat)));
    }
}

/// Appends the text of a list of numbers to `s`.
pub fn append_list(s: &mut String, items: &Vec<usize>)
    ensures
        final(s)@ == old(s)@ + list_text(items@),
{
    push_char(s, '[');
    let mut k: usize = 0;
    while k < items.len()
        invariant
            k <= items.len(),
            s@ == old(s)@ + seq!['['] + list_items(items@, k as nat),
        decreases items.len() - k,
    {
        if k > 0 {
            push_char(s, ',');
            push_char(s, ' ');
        }
        append_decimal(s, items[k]);
        proof {
            let before = old(s)@ + seq!['['] + list_items(items@, k as nat);
            if k > 0 {
                assert(s@ == before.push(',').push(' ') + decimal(items@[k as int] as nat));
                assert(before.push(',').push(' ') == before + seq![',', ' ']);
            }
            assert(s@ == old(s)@ + seq!['['] + list_items(items@, (k + 1) as nat));
        }
        k += 1;
    }
    push_char(s, ']');
    assert(s@ == old(s)@ + list_text(items@));
}

/// A new string that holds `text`.
pub fn text_of(text: &str) -> (r: String)
    ensures
        r@ == text@,
{
    String::from_str(text)
}

} // verus!
