use vstd::prelude::*;
use vstd::string::StringExecFns;

use crate::pattern::PatternError;
use crate::strings::push_char;
use crate::substitute::SubstitutionError;
use crate::walk::GlobError;

verus! {

/// The decimal digit for `d < 10`.
pub open spec fn digit(d: nat) -> char {
    (48 + d) as char
}

/// The decimal text of `n`, without leading zeros.
pub open spec fn decimal(n: nat) -> Seq<char>
    decreases n,
{
    if n < 10 {
        seq![digit(n)]
    } else {
        decimal(n / 10).push(digit(n % 10))
    }
}

fn digit_char(d: usize) -> (c: char)
    requires
        d < 10,
    ensures
        c == digit(d as nat),
{
    let b: u8 = 48 + d as u8;
    b as char
}

/// Appends the decimal text of `n` to `s`.
fn push_decimal(s: &mut String, n: usize)
    ensures
        final(s)@ == old(s)@ + decimal(n as nat),
    decreases n,
{
    if n >= 10 {
        push_decimal(s, n / 10);
    }
    push_char(s, digit_char(n % 10));
    assert(final(s)@ =~= old(s)@ + decimal(n as nat));
}

impl PatternError {
    /// The error as a sentence: where in the pattern it is and what it is.
    pub fn to_string(&self) -> (r: String)
        ensures
            r@ == "Pattern syntax error near position "@ + decimal(self.pos as nat) + ": "@ + self.msg@,
    {
        let mut r = String::new();
        r.append("Pattern syntax error near position ");
        push_decimal(&mut r, self.pos);
        r.append(": ");
        r.append(self.msg);
        r
    }
}

impl SubstitutionError {
    /// The error as a sentence.
    pub fn to_string(&self) -> (r: String)
        ensures
            r@ == match *self {
                SubstitutionError::MissingGroup(g) => "substitution error: missing group "@ + decimal(g as nat),
                SubstitutionError::UnexpectedWildcard => "unexpected wildcard"@,
            },
    {
        let mut r = String::new();
        match self {
            SubstitutionError::MissingGroup(g) => {
                r.append("substitution error: missing group ");
                push_decimal(&mut r, *g);
            },
            SubstitutionError::UnexpectedWildcard => {
                r.append("unexpected wildcard");
            },
        }
        r
    }
}

impl GlobError {
    /// The error as a sentence: the path that could not be read, then the
    /// system's description of the error.
    pub fn to_string(&self) -> (r: String)
        ensures
            exists|detail: String|
                vstd::string::to_string_from_display_ensures::<std::io::Error>(self.io_error(), detail) && r@
                    == "attempting to read `"@ + self.path_text() + "` resulted in an error: "@ + detail@,
    {
        let detail = self.error().to_string();
        let mut r = String::new();
        r.append("attempting to read `");
        r.append(self.path());
        r.append("` resulted in an error: ");
        r.append(detail.as_str());
        assert(vstd::string::to_string_from_display_ensures::<std::io::Error>(self.io_error(), detail) && r@
            == "attempting to read `"@ + self.path_text() + "` resulted in an error: "@ + detail@);
        r
    }
}

} // verus!
