//! Status replies in JSON, as the poll and submit endpoints send them.

use vstd::prelude::*;

verus! {

/// A lowercase hexadecimal digit.
pub open spec fn hex_digit(d: int) -> char {
    if d < 10 {
        ('0' as int + d) as char
    } else {
        ('a' as int + d - 10) as char
    }
}

/// How one character stands inside a JSON string as serde_json writes it:
/// quote and backslash are escaped, the five named controls get their short
/// escape, other controls below 0x20 become `\u00XX`, the rest stays.
pub open spec fn json_escaped_char(c: char) -> Seq<char> {
    if c == '"' {
        seq!['\\', '"']
    } else if c == '\\' {
        seq!['\\', '\\']
    } else if c == '\u{8}' {
        seq!['\\', 'b']
    } else if c == '\t' {
        seq!['\\', 't']
    } else if c == '\n' {
        seq!['\\', 'n']
    } else if c == '\u{c}' {
        seq!['\\', 'f']
    } else if c == '\r' {
        seq!['\\', 'r']
    } else if (c as int) < 0x20 {
        seq!['\\', 'u', '0', '0', hex_digit(c as int / 16), hex_digit(c as int % 16)]
    } else {
        seq![c]
    }
}

/// The characters of `s`, each escaped.
pub open spec fn json_escaped(s: Seq<char>) -> Seq<char>
    decreases s.len(),
{
    if s.len() == 0 {
        Seq::empty()
    } else {
        json_escaped(s.drop_last()) + json_escaped_char(s.last())
    }
}

/// The compact JSON text of a string value holding `s`: quoted and escaped.
pub open spec fn json_string(s: Seq<char>) -> Seq<char> {
    seq!['"'] + json_escaped(s) + seq!['"']
}

/// Relies on serde_json's `Display` for `Value::String`: it writes the string
/// quoted, escaping each character by its table of escapes (`ESCAPE` in
/// serde_json's `ser.rs`), and cannot fail when writing into a `String`.
#[verifier::external_body]
pub(crate) fn quote_json(s: &str) -> (r: String)
    ensures
        r@ == json_string(s@),
{
    serde_json::Value::String(s.to_string()).to_string()
}

/// `{"status":<status>}`
pub open spec fn status_json(status: Seq<char>) -> Seq<char> {
    "{\"status\":"@ + json_string(status) + "}"@
}

/// `{"message":<message>,"status":"error"}`
pub open spec fn error_json(message: Seq<char>) -> Seq<char> {
    "{\"message\":"@ + json_string(message) + ",\"status\":\"error\"}"@
}

/// Builders of the JSON status objects.
pub struct Er {}

impl Er {
    fn error(message: &str) -> (r: String)
        ensures
            r@ == error_json(message@),
    {
        let mut out = String::from_str("{\"message\":");
        let quoted = quote_json(message);
        out.append(quoted.as_str());
        out.append(",\"status\":\"error\"}");
        out
    }

    fn status(status: &str) -> (r: String)
        ensures
            r@ == status_json(status@),
    {
        let mut out = String::from_str("{\"status\":");
        let quoted = quote_json(status);
        out.append(quoted.as_str());
        out.append("}");
        out
    }
}

/// A reply that is not an answer.
pub enum ErStatus {
    Pending,
    Error(String),
    InvalidToken,
    Overloaded,
}

impl ErStatus {
    /// The JSON text that this status is sent as.
    pub open spec fn spec_json(&self) -> Seq<char> {
        match self {
            ErStatus::Pending => status_json("pending"@),
            ErStatus::InvalidToken => status_json("invalid_token"@),
            ErStatus::Error(text) => error_json(text@),
            ErStatus::Overloaded => status_json("overloaded"@),
        }
    }

    pub fn json(&self) -> (r: String)
        ensures
            r@ == self.spec_json(),
    {
        match self {
            ErStatus::Pending => Er::status("pending"),
            ErStatus::InvalidToken => Er::status("invalid_token"),
            ErStatus::Error(text) => Er::error(text.as_str()),
            ErStatus::Overloaded => Er::status("overloaded"),
        }
    }

    pub fn error(message: &str) -> (r: ErStatus)
        ensures
            r matches ErStatus::Error(text) && text@ == message@,
    {
        ErStatus::Error(message.to_owned())
    }
}

} // verus!
