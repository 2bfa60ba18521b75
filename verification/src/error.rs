//! Error type for algorithm execution, and the text that describes each error.

use vstd::prelude::*;
use vstd::string::StringExecFns;

verus! {

/// Errors reported by the algorithms and containers of this crate.
#[derive(Clone, Debug, Eq, PartialEq)]
pub enum Error {
    /// Two inputs that must have equal lengths differ.
    LengthMismatch { left: usize, right: usize },
    /// The output cannot hold every item of the input.
    OutputTooShort { input: usize, output: usize },
    /// A length does not fit in `MIndex`.
    LengthTooLarge { len: usize },
    /// Offsets, lengths or segment ids do not describe an ordered partition.
    InvalidSegmentation,
    /// A column is not bound to storage.
    UnboundColumn,
    /// The storage belongs to another executor.
    ForeignExecutor,
    /// A launch failed with the given message.
    Launch { message: String },
}

/// The character of decimal digit `d`.
pub open spec fn digit_char(d: nat) -> char {
    if d == 0 {
        '0'
    } else if d == 1 {
        '1'
    } else if d == 2 {
        '2'
    } else if d == 3 {
        '3'
    } else if d == 4 {
        '4'
    } else if d == 5 {
        '5'
    } else if d == 6 {
        '6'
    } else if d == 7 {
        '7'
    } else if d == 8 {
        '8'
    } else {
        '9'
    }
}

/// The decimal digits of `n`, most significant first, without leading zeros.
pub open spec fn decimal(n: nat) -> Seq<char>
    decreases n,
{
    if n < 10 {
        seq![digit_char(n)]
    } else {
        decimal(n / 10).push(digit_char(n % 10))
    }
}

impl Error {
    /// The text that describes the error.
    pub open spec fn spec_message(&self) -> Seq<char> {
        match self {
            Error::LengthMismatch { left, right } => "input lengths differ: "@ + decimal(
                *left as nat,
            ) + " != "@ + decimal(*right as nat),
            Error::OutputTooShort { input, output } => "output length "@ + decimal(*output as nat)
                + " is shorter than input length "@ + decimal(*input as nat),
            Error::LengthTooLarge { len } => "length does not fit in u32: "@ + decimal(*len as nat),
            Error::InvalidSegmentation => "segmentation is not a valid ordered partition"@,
            Error::UnboundColumn => "column is not bound to device storage"@,
            Error::ForeignExecutor => "executor does not own this device data"@,
            Error::Launch { message } => "CubeCL launch failed: "@ + message@,
        }
    }

    /// Describes the error in one line of text.
    pub fn message(&self) -> (text: String)
        ensures
            text@ == self.spec_message(),
    {
        let mut text = String::new();
        match self {
            Error::LengthMismatch { left, right } => {
                text.append("input lengths differ: ");
                push_decimal(&mut text, *left);
                text.append(" != ");
                push_decimal(&mut text, *right);
            },
            Error::OutputTooShort { input, output } => {
                text.append("output length ");
                push_decimal(&mut text, *output);
                text.append(" is shorter than input length ");
                push_decimal(&mut text, *input);
            },
            Error::LengthTooLarge { len } => {
                text.append("length does not fit in u32: ");
                push_decimal(&mut text, *len);
            },
            Error::InvalidSegmentation => {
                text.append("segmentation is not a valid ordered partition");
            },
            Error::UnboundColumn => {
                text.append("column is not bound to device storage");
            },
            Error::ForeignExecutor => {
                text.append("executor does not own this device data");
            },
            Error::Launch { message } => {
                text.append("CubeCL launch failed: ");
                text.append(message.as_str());
            },
        }
        text
    }
}

/// The one-character text of decimal digit `d`.
fn digit(d: usize) -> (t: &'static str)
    requires
        d < 10,
    ensures
        t@ == seq![digit_char(d as nat)],
{
    proof {
        reveal_strlit("0");
        reveal_strlit("1");
        reveal_strlit("2");
        reveal_strlit("3");
        reveal_strlit("4");
        reveal_strlit("5");
        reveal_strlit("6");
        reveal_strlit("7");
        reveal_strlit("8");
        reveal_strlit("9");
    }
    if d == 0 {
        "0"
    } else if d == 1 {
        "1"
    } else if d == 2 {
        "2"
    } else if d == 3 {
        "3"
    } else if d == 4 {
        "4"
    } else if d == 5 {
        "5"
    } else if d == 6 {
        "6"
    } else if d == 7 {
        "7"
    } else if d == 8 {
        "8"
    } else {
        "9"
    }
}

/// Appends the decimal digits of `n` to `text`.
fn push_decimal(text: &mut String, n: usize)
    ensures
        final(text)@ == old(text)@ + decimal(n as nat),
    decreases n,
{
    if n >= 10 {
        push_decimal(text, n / 10);
    }
    text.append(digit(n % 10));
    proof {
        if n < 10 {
            assert(decimal(n as nat) == seq![digit_char(n as nat)]);
        }
        assert(old(text)@ + decimal(n as nat) =~= if n >= 10 {
            (old(text)@ + decimal((n / 10) as nat)) + seq![digit_char((n % 10) as nat)]
        } else {
            old(text)@ + seq![digit_char((n % 10) as nat)]
        });
    }
}

} // verus!
