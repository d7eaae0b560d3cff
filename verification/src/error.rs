//! The error type that every fallible operation of the library returns.

use vstd::prelude::*;

verus! {

/// Why an operation was refused.
#[derive(Debug, Clone, PartialEq, Eq)]
pub enum FecError {
    /// A parameter lies outside its valid range.
    InvalidParam(&'static str),
    /// A code block or transport block failed its CRC check.
    CrcMismatch,
    /// The received word is farther from every codeword than the decoder can
    /// correct.
    DecoderNotConverged,
    /// A buffer does not have the required length.
    BufferTooSmall { required: usize, provided: usize },
}

/// A decimal digit.
pub open spec fn digit(d: int) -> char {
    (d + 48) as char
}

/// A number in decimal notation.
pub open spec fn decimal(n: nat) -> Seq<char>
    decreases n,
{
    if n < 10 {
        seq![digit(n as int)]
    } else {
        decimal(n / 10).push(digit(n as int % 10))
    }
}

fn append_digit(text: &mut String, d: usize)
    requires
        d < 10,
    ensures
        final(text)@ == old(text)@.push(digit(d as int)),
{
    proof {
        reveal_strlit("0");
        reveal_strlit("1");
        reveal_strlit("2");
        reveal_strlit("3");
        reveal_strlit("4");
        reveal_strlit("5");
        reveal_strlit("6");
        reveal_strlit("7");
        reveal_strlit("8");
        reveal_strlit("9");
    }
    let one: &str = if d == 0 {
        "0"
    } else if d == 1 {
        "1"
    } else if d == 2 {
        "2"
    } else if d == 3 {
        "3"
    } else if d == 4 {
        "4"
    } else if d == 5 {
        "5"
    } else if d == 6 {
        "6"
    } else if d == 7 {
        "7"
    } else if d == 8 {
        "8"
    } else {
        "9"
    };
    text.append(one);
    assert(one@ =~= seq![digit(d as int)]);
    assert(text@ =~= old(text)@.push(digit(d as int)));
}

fn append_number(text: &mut String, n: usize)
    ensures
        final(text)@ == old(text)@ + decimal(n as nat),
    decreases n,
{
    if n >= 10 {
        append_number(text, n / 10);
    }
    append_digit(text, n % 10);
    assert(text@ =~= old(text)@ + decimal(n as nat));
}

impl FecError {
    /// The text of an error.
    pub open spec fn text(&self) -> Seq<char> {
        match self {
            FecError::InvalidParam(msg) => "invalid parameter: "@ + msg@,
            FecError::CrcMismatch => "CRC check failed"@,
            FecError::DecoderNotConverged => "LDPC decoder did not converge"@,
            FecError::BufferTooSmall { required, provided } => "buffer too small: required "@
                + decimal(*required as nat) + " bytes, got "@ + decimal(*provided as nat),
        }
    }

    /// The text of an error.
    pub fn message(&self) -> (text: String)
        ensures
            text@ == self.text(),
    {
        let mut text: String = String::new();
        match self {
            FecError::InvalidParam(msg) => {
                text.append("invalid parameter: ");
                text.append(msg);
            },
            FecError::CrcMismatch => {
                text.append("CRC check failed");
            },
            FecError::DecoderNotConverged => {
                text.append("LDPC decoder did not converge");
            },
            FecError::BufferTooSmall { required, provided } => {
                text.append("buffer too small: required ");
                append_number(&mut text, *required);
                text.append(" bytes, got ");
                append_number(&mut text, *provided);
            },
        }
        assert(text@ =~= self.text());
        text
    }
}

/// The number that decimal digits stand for.
pub open spec fn read_decimal(s: Seq<char>) -> int
    decreases s.len(),
{
    if s.len() == 0 {
        0
    } else {
        10 * read_decimal(s.drop_last()) + (s.last() as int - 48)
    }
}

/// A number in decimal notation reads back as the number, in digits, and
/// without a leading zero.
pub proof fn lemma_decimal(n: nat)
    ensures
        read_decimal(decimal(n)) == n,
        decimal(n).len() >= 1,
        forall|i: int|
            0 <= i < decimal(n).len() ==> 48 <= (#[trigger] decimal(n)[i]) as int <= 57,
        n > 0 ==> decimal(n)[0] as int > 48,
    decreases n,
{
    if n < 10 {
        let s = decimal(n);
        assert(s.drop_last() =~= Seq::<char>::empty());
        assert(read_decimal(s.drop_last()) == 0);
        assert(s.last() as int == n + 48);
    } else {
        lemma_decimal(n / 10);
        let s = decimal(n);
        assert(s.drop_last() =~= decimal(n / 10));
        assert(s.last() as int == n % 10 + 48);
        assert(s[0] == decimal(n / 10)[0]);
        assert forall|i: int| 0 <= i < s.len() implies 48 <= (#[trigger] s[i]) as int <= 57 by {
            if i < s.len() - 1 {
                assert(s[i] == decimal(n / 10)[i]);
            }
        }
    }
}

} // verus!
