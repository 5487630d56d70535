//! Numbers as decimal digits, and strings as sequences of chars.
use vstd::prelude::*;

verus! {

/// The character that stands for the digit `d`.
pub open spec fn digit(d: nat) -> char {
    ((48 + d) as u8) as char
}

/// The decimal digits of `n`, without leading zeros.
pub open spec fn decimal(n: nat) -> Seq<char>
    decreases n,
{
    if n < 10 {
        seq![digit(n)]
    } else {
        decimal(n / 10).push(digit(n % 10))
    }
}

/// `c` is one of the ten digits.
pub open spec fn is_digit(c: char) -> bool {
    48 <= c as u32 <= 57
}

/// The number that a sequence of digits stands for: nothing when the
/// sequence is empty or holds anything but digits.
pub open spec fn number(text: Seq<char>) -> Option<nat>
    decreases text.len(),
{
    if text.len() == 0 {
        None
    } else if !is_digit(text.last()) {
        None
    } else if text.len() == 1 {
        Some((text.last() as u32 - 48) as nat)
    } else {
        match number(text.drop_last()) {
            Some(high) => Some(10 * high + (text.last() as u32 - 48) as nat),
            None => None,
        }
    }
}

/// The number that `text` stands for as an index in a line: digits, which a
/// plus sign may precede.
pub open spec fn signed_number(text: Seq<char>) -> Option<nat> {
    if text.len() > 0 && text[0] == '+' {
        number(text.drop_first())
    } else {
        number(text)
    }
}

/// The digits of a number are digits, and they stand for that number.
pub proof fn lemma_decimal(n: nat)
    ensures
        decimal(n).len() > 0,
        forall|i: int| 0 <= i < decimal(n).len() ==> is_digit(#[trigger] decimal(n)[i]),
        number(decimal(n)) == Some(n),
        signed_number(decimal(n)) == Some(n),
    decreases n,
{
    if n < 10 {
        assert(decimal(n)[0] == digit(n));
        assert(digit(n) as u32 == 48 + n);
    } else {
        lemma_decimal(n / 10);
        let high = decimal(n / 10);
        let all = decimal(n);
        assert(all.drop_last() =~= high);
        assert(all.last() == digit(n % 10));
        assert(digit(n % 10) as u32 == 48 + n % 10);
        assert forall|i: int| 0 <= i < all.len() implies is_digit(#[trigger] all[i]) by {
            if i < high.len() {
                assert(all[i] == high[i]);
            }
        }
    }
    assert(is_digit(decimal(n)[0]));
}

/// Appends the decimal digits of `n` to `out`.
pub fn push_decimal(out: &mut Vec<char>, n: u128)
    ensures
        final(out)@ == old(out)@ + decimal(n as nat),
    decreases n,
{
    if n >= 10 {
        push_decimal(out, n / 10);
    }
    let d = (n % 10) as u8;
    out.push((48 + d) as char);
    assert(out@ =~= old(out)@ + decimal(n as nat));
}

/// The number that `text` stands for, where the machine can hold it.
pub open spec fn machine_number(text: Seq<char>) -> Option<usize> {
    match signed_number(text) {
        Some(n) => if n <= usize::MAX {
            Some(n as usize)
        } else {
            None
        },
        None => None,
    }
}

/// Each beginning of a sequence of digits stands for a number that is not
/// above the number of the whole.
pub proof fn lemma_number_prefix(text: Seq<char>, k: int)
    requires
        number(text) is Some,
        1 <= k <= text.len(),
    ensures
        number(text.take(k)) is Some,
        number(text.take(k))->0 <= number(text)->0,
    decreases text.len(),
{
    if k == text.len() {
        assert(text.take(k) =~= text);
    } else {
        assert(text.drop_last().take(k) =~= text.take(k));
        lemma_number_prefix(text.drop_last(), k);
    }
}

/// Reads digits as a number: nothing when `text` is empty, holds anything
/// but digits, or stands for more than the machine can hold.
fn read_digits(text: &[char]) -> (value: Option<usize>)
    ensures
        value == (match number(text@) {
            Some(n) => if n <= usize::MAX {
                Some(n as usize)
            } else {
                None
            },
            None => None,
        }),
{
    if text.len() == 0 {
        return None;
    }
    let mut acc: usize = 0;
    let mut i: usize = 0;
    while i < text.len()
        invariant
            i <= text@.len(),
            i > 0 ==> number(text@.take(i as int)) == Some(acc as nat),
            i == 0 ==> acc == 0,
        decreases text@.len() - i,
    {
        let c = text[i];
        let ghost upto = text@.take(i + 1);
        proof {
            assert(upto.last() == c);
            assert(upto.drop_last() =~= text@.take(i as int));
            if number(text@) is Some {
                lemma_number_prefix(text@, i + 1);
            }
        }
        let code = c as u32;
        if code < 48 || code > 57 {
            return None;
        }
        let d = (code - 48) as usize;
        if acc > (usize::MAX - d) / 10 {
            proof {
                assert(10 * acc + d > usize::MAX);
            }
            return None;
        }
        acc = 10 * acc + d;
        i += 1;
    }
    assert(text@.take(text@.len() as int) =~= text@);
    Some(acc)
}

/// Reads `text` as an index: digits, which a plus sign may precede.
pub fn read_number(text: &[char]) -> (value: Option<usize>)
    ensures
        value == machine_number(text@),
{
    if text.len() > 0 && text[0] == '+' {
        let digits = vstd::slice::slice_subrange(text, 1, text.len());
        assert(digits@ =~= text@.drop_first());
        read_digits(digits)
    } else {
        read_digits(text)
    }
}

/// The chars of a string.
pub fn chars_of(text: &str) -> (chars: Vec<char>)
    ensures
        chars@ == text@,
{
    let mut chars: Vec<char> = Vec::new();
    for c in it: text.chars()
        invariant
            it.seq() == text@,
            chars@ == text@.take(it.index() as int),
    {
        chars.push(c);
        assert(chars@ =~= text@.take(it.index() + 1));
    }
    assert(text@.take(text@.len() as int) =~= text@);
    chars
}

/// Makes a string of chars: `String`'s `from_iter`, which the standard
/// library documents to hold the chars that it is given, in their order.
#[verifier::external_body]
pub(crate) fn string_from_chars(chars: &[char]) -> (text: String)
    ensures
        text@ == chars@,
{
    chars.iter().collect()
}

/// Appends the chars of `text` to `out`.
pub fn push_text(out: &mut Vec<char>, text: &str)
    ensures
        final(out)@ == old(out)@ + text@,
{
    for c in it: text.chars()
        invariant
            it.seq() == text@,
            out@ == old(out)@ + text@.take(it.index() as int),
    {
        out.push(c);
        assert(out@ =~= old(out)@ + text@.take(it.index() + 1));
    }
    assert(text@.take(text@.len() as int) =~= text@);
}

} // verus!
