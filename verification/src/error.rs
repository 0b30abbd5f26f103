//! The errors that building, decoding and solving a grid can give.

use vstd::prelude::*;
use vstd::string::StringExecFns;

verus! {

/// An error returned when the grid is not properly sized.
#[derive(Debug, Eq, PartialEq, Clone, Copy, Hash, Structural)]
pub enum GridSizeError {
    /// The grid is empty.
    EmptyGrid,
    /// The grid is not a square.
    /// The field contains the number of the first line whose length is wrong,
    /// counted from zero.
    NotASquare(usize),
    /// The size of the grid is an odd number.
    OddNumberSize,
}

/// An error returned when decoding a string to create a grid failed.
#[derive(Debug, Eq, PartialEq, Clone, Copy, Hash, Structural)]
pub enum GridParseError {
    /// The grid does not have the right size.
    /// It should be square, of non-null, even size.
    BadSize(GridSizeError),
    /// At least one character other than `0`, `1`, `.` or `\n`
    /// was found in the string.
    UnexpectedCharacter,
}

/// An error returned when checking if the grid is legal.
#[derive(Debug, Eq, PartialEq, Clone, Copy, Hash, Structural)]
pub enum GridError {
    /// The grid is illegal, meaning it infringes at least one of the rules.
    Illegal,
}

impl From<GridSizeError> for GridParseError {
    fn from(err: GridSizeError) -> (res: GridParseError) {
        GridParseError::BadSize(err)
    }
}

impl vstd::std_specs::convert::FromSpecImpl<GridSizeError> for GridParseError {
    open spec fn obeys_from_spec() -> bool {
        true
    }

    open spec fn from_spec(err: GridSizeError) -> GridParseError {
        GridParseError::BadSize(err)
    }
}

/// The character of a decimal digit.
pub open spec fn digit(d: nat) -> char {
    if d == 0 {
        '0'
    } else if d == 1 {
        '1'
    } else if d == 2 {
        '2'
    } else if d == 3 {
        '3'
    } else if d == 4 {
        '4'
    } else if d == 5 {
        '5'
    } else if d == 6 {
        '6'
    } else if d == 7 {
        '7'
    } else if d == 8 {
        '8'
    } else {
        '9'
    }
}

/// A number written in decimal digits, without leading zeros.
pub open spec fn decimal_text(n: nat) -> Seq<char>
    decreases n,
{
    if n < 10 {
        seq![digit(n)]
    } else {
        decimal_text(n / 10) + seq![digit(n % 10)]
    }
}

/// Gives a decimal digit as a string.
pub fn digit_str(d: usize) -> (s: &'static str)
    requires
        d < 10,
    ensures
        s@ == seq![digit(d as nat)],
{
    proof {
        reveal_strlit("0");
        reveal_strlit("1");
        reveal_strlit("2");
        reveal_strlit("3");
        reveal_strlit("4");
        reveal_strlit("5");
        reveal_strlit("6");
        reveal_strlit("7");
        reveal_strlit("8");
        reveal_strlit("9");
    }
    let s = if d == 0 {
        "0"
    } else if d == 1 {
        "1"
    } else if d == 2 {
        "2"
    } else if d == 3 {
        "3"
    } else if d == 4 {
        "4"
    } else if d == 5 {
        "5"
    } else if d == 6 {
        "6"
    } else if d == 7 {
        "7"
    } else if d == 8 {
        "8"
    } else {
        "9"
    };
    assert(s@ =~= seq![digit(d as nat)]);
    s
}

/// Writes a number in decimal digits.
pub fn decimal(n: usize) -> (out: String)
    ensures
        out@ == decimal_text(n as nat),
    decreases n,
{
    if n < 10 {
        let mut out = String::new();
        out.append(digit_str(n));
        assert(out@ =~= decimal_text(n as nat));
        out
    } else {
        let mut out = decimal(n / 10);
        out.append(digit_str(n % 10));
        out
    }
}

impl GridSizeError {
    /// What the error says.
    pub open spec fn text(self) -> Seq<char> {
        match self {
            GridSizeError::EmptyGrid => "grid is empty"@,
            GridSizeError::NotASquare(n) => "grid is not a square (line "@ + decimal_text(n as nat)
                + ")"@,
            GridSizeError::OddNumberSize => "grid size is an odd number"@,
        }
    }

    /// Says what is wrong with the size, for a reader.
    pub fn to_string(&self) -> (out: String)
        ensures
            out@ == self.text(),
    {
        let mut out = String::new();
        match *self {
            GridSizeError::EmptyGrid => {
                out.append("grid is empty");
                assert(out@ =~= self.text());
            },
            GridSizeError::NotASquare(n) => {
                out.append("grid is not a square (line ");
                let line = decimal(n);
                out.append(line.as_str());
                out.append(")");
                assert(out@ =~= self.text());
            },
            GridSizeError::OddNumberSize => {
                out.append("grid size is an odd number");
                assert(out@ =~= self.text());
            },
        }
        out
    }
}

impl GridParseError {
    /// What the error says.
    pub open spec fn text(self) -> Seq<char> {
        match self {
            GridParseError::BadSize(e) => "faulty grid size: "@ + e.text(),
            GridParseError::UnexpectedCharacter => "found unexpected character(s)"@,
        }
    }

    /// Says why the text holds no grid, for a reader.
    pub fn to_string(&self) -> (out: String)
        ensures
            out@ == self.text(),
    {
        let mut out = String::new();
        match *self {
            GridParseError::BadSize(e) => {
                out.append("faulty grid size: ");
                let reason = e.to_string();
                out.append(reason.as_str());
                assert(out@ =~= self.text());
            },
            GridParseError::UnexpectedCharacter => {
                out.append("found unexpected character(s)");
                assert(out@ =~= self.text());
            },
        }
        out
    }
}

impl GridError {
    /// What the error says.
    pub open spec fn text(self) -> Seq<char> {
        "grid is illegal"@
    }

    /// Says that the grid infringes the rules, for a reader.
    pub fn to_string(&self) -> (out: String)
        ensures
            out@ == self.text(),
    {
        let mut out = String::new();
        out.append("grid is illegal");
        assert(out@ =~= self.text());
        out
    }
}

} // verus!
