//! Error taxonomy. Exit codes are part of the CLI contract and must stay
//! stable — an agent branches on them.

use vstd::prelude::*;

use crate::text::{decimal, push_char, push_decimal, push_str, signed_decimal, push_signed, chars_of, hex2, push_hex2};

verus! {

/// Process exit codes.
#[derive(Debug, Clone, Copy, PartialEq, Eq, Structural)]
pub enum ExitCode {
    Success,
    Usage,
    InputFile,
    MalformedXml,
    Selection,
    Render,
}

/// The numeric value of each exit code.
pub open spec fn spec_exit_value(code: ExitCode) -> i32 {
    match code {
        ExitCode::Success => 0,
        ExitCode::Usage => 1,
        ExitCode::InputFile => 2,
        ExitCode::MalformedXml => 3,
        ExitCode::Selection => 4,
        ExitCode::Render => 5,
    }
}

impl ExitCode {
    /// The value the process exits with.
    pub fn value(self) -> (r: i32)
        ensures
            r == spec_exit_value(self),
    {
        match self {
            ExitCode::Success => 0,
            ExitCode::Usage => 1,
            ExitCode::InputFile => 2,
            ExitCode::MalformedXml => 3,
            ExitCode::Selection => 4,
            ExitCode::Render => 5,
        }
    }
}

/// Where in the input a parse failure happened, plus the offending source line.
#[derive(Debug, Clone)]
pub struct XmlPosition {
    pub line: u32,
    pub column: u32,
    /// The source line itself, trimmed of any trailing newline.
    pub excerpt: String,
}

/// Every failure the tool reports, with its message.
#[derive(Debug)]
pub enum AppError {
    Usage(String),
    InputFile(String),
    MalformedXml(String, Option<XmlPosition>),
    Selection(String),
    Render(String),
}

/// The exit code of each error.
pub open spec fn spec_exit_code(e: AppError) -> ExitCode {
    match e {
        AppError::Usage(_) => ExitCode::Usage,
        AppError::InputFile(_) => ExitCode::InputFile,
        AppError::MalformedXml(..) => ExitCode::MalformedXml,
        AppError::Selection(_) => ExitCode::Selection,
        AppError::Render(_) => ExitCode::Render,
    }
}

/// The stable machine-readable identifier of each error.
pub open spec fn spec_kind(e: AppError) -> Seq<char> {
    match e {
        AppError::Usage(_) => "usage"@,
        AppError::InputFile(_) => "input_file"@,
        AppError::MalformedXml(..) => "malformed_xml"@,
        AppError::Selection(_) => "selection"@,
        AppError::Render(_) => "render"@,
    }
}

/// The human-readable message of each error.
pub open spec fn spec_message(e: AppError) -> Seq<char> {
    match e {
        AppError::Usage(m) => m@,
        AppError::InputFile(m) => m@,
        AppError::MalformedXml(m, _) => m@,
        AppError::Selection(m) => m@,
        AppError::Render(m) => m@,
    }
}

/// JSON string escaping: `\"`, `\\`, `\b`, `\t`, `\n`, `\f`, `\r` for those
/// characters, `\u00xx` (lowercase hex) for the other control characters
/// below U+0020, and every other character as it is.
pub open spec fn json_escape_char(c: char) -> Seq<char> {
    if c == '"' {
        seq!['\\', '"']
    } else if c == '\\' {
        seq!['\\', '\\']
    } else if c == '\x08' {
        seq!['\\', 'b']
    } else if c == '\t' {
        seq!['\\', 't']
    } else if c == '\n' {
        seq!['\\', 'n']
    } else if c == '\x0c' {
        seq!['\\', 'f']
    } else if c == '\r' {
        seq!['\\', 'r']
    } else if (c as u32) < 0x20 {
        seq!['\\', 'u', '0', '0'] + hex2(c as u8)
    } else {
        seq![c]
    }
}

/// The escaped contents of a JSON string holding `s` (without the quotes).
pub open spec fn json_escaped(s: Seq<char>) -> Seq<char>
    decreases s.len(),
{
    if s.len() == 0 {
        seq![]
    } else {
        json_escaped(s.drop_last()) + json_escape_char(s.last())
    }
}

/// A JSON string literal holding `s`.
pub open spec fn json_string(s: Seq<char>) -> Seq<char> {
    seq!['"'] + json_escaped(s) + seq!['"']
}

fn push_json_char(out: &mut String, c: char)
    ensures
        final(out)@ == old(out)@ + json_escape_char(c),
{
    let ghost start = out@;
    if c == '"' {
        push_char(out, '\\');
        push_char(out, '"');
    } else if c == '\\' {
        push_char(out, '\\');
        push_char(out, '\\');
    } else if c == '\x08' {
        push_char(out, '\\');
        push_char(out, 'b');
    } else if c == '\t' {
        push_char(out, '\\');
        push_char(out, 't');
    } else if c == '\n' {
        push_char(out, '\\');
        push_char(out, 'n');
    } else if c == '\x0c' {
        push_char(out, '\\');
        push_char(out, 'f');
    } else if c == '\r' {
        push_char(out, '\\');
        push_char(out, 'r');
    } else if (c as u32) < 0x20 {
        push_char(out, '\\');
        push_char(out, 'u');
        push_char(out, '0');
        push_char(out, '0');
        push_hex2(out, c as u8);
    } else {
        push_char(out, c);
    }
    assert(out@ =~= start + json_escape_char(c));
}

/// Appends `s` as a JSON string literal (the escaping `serde_json` applies).
pub fn push_json_string(out: &mut String, s: &str)
    ensures
        final(out)@ == old(out)@ + json_string(s@),
{
    let ghost start = out@;
    let chars = chars_of(s);
    push_char(out, '"');
    let mut i: usize = 0;
    while i < chars.len()
        invariant
            i <= chars@.len(),
            chars@ == s@,
            out@ == start + seq!['"'] + json_escaped(chars@.take(i as int)),
        decreases chars@.len() - i,
    {
        let ghost before = out@;
        push_json_char(out, chars[i]);
        assert(chars@.take(i as int + 1).drop_last() == chars@.take(i as int));
        i = i + 1;
    }
    assert(chars@.take(chars@.len() as int) == chars@);
    push_char(out, '"');
}

/// The JSON diagnostic line for an error: the keys in sorted order, as a
/// `serde_json` object map prints them, `line`/`column` only when the error
/// carries a position.
pub open spec fn spec_json_line(e: AppError) -> Seq<char> {
    let common = "\"exit_code\":"@ + signed_decimal(spec_exit_value(spec_exit_code(e)) as int)
        + ",\"kind\":"@ + json_string(spec_kind(e)) + ",\"level\":\"error\""@;
    match e {
        AppError::MalformedXml(m, Some(p)) => "{\"column\":"@ + decimal(p.column as nat) + ","@
            + common + ",\"line\":"@ + decimal(p.line as nat) + ",\"message\":"@ + json_string(m@)
            + "}"@,
        _ => "{"@ + common + ",\"message\":"@ + json_string(spec_message(e)) + "}"@,
    }
}

impl AppError {
    /// The exit code the process ends with for this error.
    pub fn exit_code(&self) -> (r: ExitCode)
        ensures
            r == spec_exit_code(*self),
    {
        match self {
            AppError::Usage(_) => ExitCode::Usage,
            AppError::InputFile(_) => ExitCode::InputFile,
            AppError::MalformedXml(..) => ExitCode::MalformedXml,
            AppError::Selection(_) => ExitCode::Selection,
            AppError::Render(_) => ExitCode::Render,
        }
    }

    /// Stable machine-readable identifier for `--error-format json`.
    pub fn kind(&self) -> (r: &'static str)
        ensures
            r@ == spec_kind(*self),
    {
        match self {
            AppError::Usage(_) => "usage",
            AppError::InputFile(_) => "input_file",
            AppError::MalformedXml(..) => "malformed_xml",
            AppError::Selection(_) => "selection",
            AppError::Render(_) => "render",
        }
    }

    /// The human-readable message.
    pub fn message(&self) -> (r: &str)
        ensures
            r@ == spec_message(*self),
    {
        match self {
            AppError::Usage(m) => m.as_str(),
            AppError::InputFile(m) => m.as_str(),
            AppError::MalformedXml(m, _) => m.as_str(),
            AppError::Selection(m) => m.as_str(),
            AppError::Render(m) => m.as_str(),
        }
    }

    /// The position of a malformed-XML error, when known.
    pub fn position(&self) -> (r: Option<&XmlPosition>)
        ensures
            match *self {
                AppError::MalformedXml(_, p) => (r is None <==> p is None) && (r matches Some(q) ==> p == Some(*q)),
                _ => r is None,
            },
    {
        match self {
            AppError::MalformedXml(_, position) => position.as_ref(),
            _ => None,
        }
    }

    /// One JSON object per line, for stderr.
    pub fn to_json_line(&self) -> (r: String)
        ensures
            r@ == spec_json_line(*self),
    {
        let mut common = String::new();
        push_str(&mut common, "\"exit_code\":");
        push_signed(&mut common, self.exit_code().value() as i64);
        push_str(&mut common, ",\"kind\":");
        push_json_string(&mut common, self.kind());
        push_str(&mut common, ",\"level\":\"error\"");
        let mut out = String::new();
        match self {
            AppError::MalformedXml(m, Some(p)) => {
                push_str(&mut out, "{\"column\":");
                push_decimal(&mut out, p.column as u64);
                push_str(&mut out, ",");
                push_str(&mut out, common.as_str());
                push_str(&mut out, ",\"line\":");
                push_decimal(&mut out, p.line as u64);
                push_str(&mut out, ",\"message\":");
                push_json_string(&mut out, m.as_str());
                push_str(&mut out, "}");
            },
            _ => {
                push_str(&mut out, "{");
                push_str(&mut out, common.as_str());
                push_str(&mut out, ",\"message\":");
                push_json_string(&mut out, self.message());
                push_str(&mut out, "}");
            },
        }
        out
    }
}

/// The JSON diagnostic line for a warning.
pub open spec fn spec_warning_line(message: Seq<char>) -> Seq<char> {
    "{\"level\":\"warning\",\"message\":"@ + json_string(message) + "}"@
}

/// One warning as a JSON object on one line, for `--error-format json`.
pub fn warning_json_line(message: &str) -> (r: String)
    ensures
        r@ == spec_warning_line(message@),
{
    let mut out = String::new();
    push_str(&mut out, "{\"level\":\"warning\",\"message\":");
    push_json_string(&mut out, message);
    push_str(&mut out, "}");
    out
}

} // verus!
