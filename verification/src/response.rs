//! Replies as text and as the bytes that go on the wire.

use vstd::prelude::*;
use vstd::string::{StrSliceExecFns, StringExecFns};
use vstd::utf8::encode_utf8;

verus! {

/// The character of a decimal digit.
pub open spec fn digit_char(digit: int) -> char {
    if digit == 0 {
        '0'
    } else if digit == 1 {
        '1'
    } else if digit == 2 {
        '2'
    } else if digit == 3 {
        '3'
    } else if digit == 4 {
        '4'
    } else if digit == 5 {
        '5'
    } else if digit == 6 {
        '6'
    } else if digit == 7 {
        '7'
    } else if digit == 8 {
        '8'
    } else {
        '9'
    }
}

/// A natural number in decimal, without leading zeros.
pub open spec fn decimal_text(number: nat) -> Seq<char>
    decreases number,
{
    if number < 10 {
        seq![digit_char(number as int)]
    } else {
        decimal_text(number / 10) + seq![digit_char((number % 10) as int)]
    }
}

/// The text of one decimal digit.
fn digit_text(digit: u8) -> (text: &'static str)
    requires
        digit < 10,
    ensures
        text@ == seq![digit_char(digit as int)],
{
    proof {
        reveal_strlit("0");
        reveal_strlit("1");
        reveal_strlit("2");
        reveal_strlit("3");
        reveal_strlit("4");
        reveal_strlit("5");
        reveal_strlit("6");
        reveal_strlit("7");
        reveal_strlit("8");
        reveal_strlit("9");
    }
    let text: &'static str = if digit == 0 {
        "0"
    } else if digit == 1 {
        "1"
    } else if digit == 2 {
        "2"
    } else if digit == 3 {
        "3"
    } else if digit == 4 {
        "4"
    } else if digit == 5 {
        "5"
    } else if digit == 6 {
        "6"
    } else if digit == 7 {
        "7"
    } else if digit == 8 {
        "8"
    } else {
        "9"
    };
    assert(text@ =~= seq![digit_char(digit as int)]);
    text
}

/// Writes a status code in decimal behind `text`.
fn append_decimal(text: &mut String, code: u8)
    ensures
        final(text)@ == old(text)@ + decimal_text(code as nat),
{
    let ghost before = text@;
    if code >= 100 {
        text.append(digit_text(code / 100));
        text.append(digit_text((code / 10) % 10));
        text.append(digit_text(code % 10));
        proof {
            let number = code as nat;
            assert(decimal_text(number / 10 / 10) == seq![digit_char((number / 100) as int)]);
            assert(decimal_text(number / 10) == decimal_text(number / 10 / 10) + seq![
                digit_char(((number / 10) % 10) as int),
            ]);
            assert(text@ =~= before + decimal_text(number));
        }
    } else if code >= 10 {
        text.append(digit_text(code / 10));
        text.append(digit_text(code % 10));
        proof {
            let number = code as nat;
            assert(decimal_text(number / 10) == seq![digit_char((number / 10) as int)]);
            assert(text@ =~= before + decimal_text(number));
        }
    } else {
        text.append(digit_text(code));
        assert(text@ =~= before + decimal_text(code as nat));
    }
}

/// The first line of a reply: protocol version, status code and reason.
#[derive(Clone, Debug, PartialEq, Eq)]
pub struct Status {
    pub version: String,
    pub code: u8,
    pub reason: String,
}

/// A reply: a status line and a body.
#[derive(Clone, Debug, PartialEq, Eq)]
pub struct Response {
    pub status: Status,
    pub body: String,
}

/// The text of a status line: version, code in decimal and reason, with one
/// space between them.
pub open spec fn status_text(version: Seq<char>, code: u8, reason: Seq<char>) -> Seq<char> {
    version + seq![' '] + decimal_text(code as nat) + seq![' '] + reason
}

/// The text of a reply: the status line, an empty line, and the body.
pub open spec fn response_text(status: Seq<char>, body: Seq<char>) -> Seq<char> {
    status + seq!['\n', '\n'] + body
}

impl Status {
    /// The status line as text.
    pub open spec fn text(&self) -> Seq<char> {
        status_text(self.version@, self.code, self.reason@)
    }

    /// The status line as a string.
    pub fn into_string(self) -> (line: String)
        ensures
            line@ == self.text(),
    {
        proof {
            reveal_strlit(" ");
        }
        assert(" "@ =~= seq![' ']);
        let mut line = self.version;
        line.append(" ");
        append_decimal(&mut line, self.code);
        line.append(" ");
        line.append(self.reason.as_str());
        line
    }
}

impl Response {
    /// The reply as text.
    pub open spec fn text(&self) -> Seq<char> {
        response_text(self.status.text(), self.body@)
    }

    /// The reply as a string.
    pub fn into_string(self) -> (text: String)
        ensures
            text@ == self.text(),
    {
        proof {
            reveal_strlit("\n\n");
        }
        assert("\n\n"@ =~= seq!['\n', '\n']);
        let mut text = self.status.into_string();
        text.append("\n\n");
        text.append(self.body.as_str());
        text
    }

    /// The reply as the bytes of its text in UTF-8.
    pub fn into_bytes(self) -> (bytes: Vec<u8>)
        ensures
            bytes@ == encode_utf8(self.text()),
    {
        let response_string = self.into_string();
        response_string.as_str().as_bytes_vec()
    }
}

/// The reply to one request line: an answer, or the reason why the line
/// could not be taken as a request.
#[derive(Clone, Debug, PartialEq, Eq)]
pub enum ResponseResult {
    Prime(String),
    Malformed(String),
}

impl ResponseResult {
    /// The text that the reply carries.
    pub open spec fn text(&self) -> Seq<char> {
        match self {
            ResponseResult::Prime(text) => text@,
            ResponseResult::Malformed(text) => text@,
        }
    }

    /// The reply as the bytes of its text in UTF-8.
    pub fn as_bytes(&self) -> (bytes: Vec<u8>)
        ensures
            bytes@ == encode_utf8(self.text()),
    {
        match self {
            ResponseResult::Prime(text) => text.as_str().as_bytes_vec(),
            ResponseResult::Malformed(text) => text.as_str().as_bytes_vec(),
        }
    }
}

} // verus!
