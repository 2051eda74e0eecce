//! Guest environment registry.
//!
//! Models the distributions managed by the host's virtualization layer and
//! parses the tabular output of the guest-management tool's list operation:
//! a header line, then one line per distribution holding exactly three
//! whitespace-separated fields (name, status, version), the active entry
//! carrying a leading marker that is stripped. Running the tool and decoding
//! its raw bytes happen outside this crate; the parser receives the decoded
//! text and every error is carried as plain values.

use crate::text::{spec_fields, spec_lines, split_fields, split_lines};
use vstd::prelude::*;

verus! {

/// One distribution: its name, reported run state, and version tag.
#[derive(Debug)]
pub struct WslDistribution {
    pub name: String,
    pub status: String,
    pub version: u32,
}

impl Clone for WslDistribution {
    /// An exact copy of the listed distribution.
    fn clone(&self) -> (r: Self)
        ensures
            r == *self,
    {
        WslDistribution {
            name: self.name.clone(),
            status: self.status.clone(),
            version: self.version,
        }
    }
}

/// Mathematical model of a `WslDistribution`.
pub struct WslDistributionView {
    pub name: Seq<char>,
    pub status: Seq<char>,
    pub version: u32,
}

impl View for WslDistribution {
    type V = WslDistributionView;

    open spec fn view(&self) -> WslDistributionView {
        WslDistributionView { name: self.name@, status: self.status@, version: self.version }
    }
}

impl WslDistribution {
    /// Whether the distribution's run state, as captured when it was listed,
    /// was "Stopped".
    pub fn was_stopped(&self) -> (r: bool)
        ensures
            r == (self.status@ == "Stopped"@),
    {
        self.status == String::from_str("Stopped")
    }
}

/// Failure of a call to the guest-management tool.
#[derive(Debug)]
pub enum Error {
    /// The tool's process could not be run; the transport error's text.
    Io(String),
    /// The tool exited with a non-zero status. Depending on whether the
    /// failure originates in the host tool or inside a guest, its output uses
    /// a wide or a narrow encoding, so both decodings of both streams are
    /// kept for diagnostics.
    BadStatus {
        code: i32,
        stderr_16: Option<String>,
        stderr_8: Option<String>,
        stdout_16: Option<String>,
        stdout_8: Option<String>,
    },
    /// The tool's output was not decodable as narrow text.
    UnreadableUtf8,
    /// The tool's output was not decodable as wide text.
    UnreadableUtf16,
    /// The list operation's output was not in the expected tabular shape.
    UnexpectedListOutput,
}

impl Error {
    /// A short description of the error, for logs.
    pub fn message(&self) -> String {
        match self {
            Error::Io(text) => {
                let mut m = String::from_str("error running command: ");
                m.append(text.as_str());
                m
            },
            Error::BadStatus { .. } => String::from_str("command exited with a non-zero status"),
            Error::UnreadableUtf8 => String::from_str("unreadable narrow text"),
            Error::UnreadableUtf16 => String::from_str("unreadable wide text"),
            Error::UnexpectedListOutput => String::from_str(
                "could not parse the output of the list command",
            ),
        }
    }
}

/// The 16-bit units held by a byte sequence read two bytes at a time,
/// low byte first (the byte order of the host platform); a leftover odd byte
/// is dropped.
pub open spec fn spec_u16_units(bytes: Seq<u8>) -> Seq<u16> {
    Seq::new((bytes.len() / 2) as nat, |i: int| (bytes[2 * i] + 256 * bytes[2 * i + 1]) as u16)
}

/// Reassembles wide text units from raw output bytes, two bytes per unit,
/// low byte first; a leftover odd byte is dropped.
pub fn to_u16(original: &[u8]) -> (r: Vec<u16>)
    ensures
        r@ == spec_u16_units(original@),
{
    let len = original.len();
    let n = len / 2;
    let mut out: Vec<u16> = Vec::new();
    let mut i: usize = 0;
    while i < n
        invariant
            0 <= i <= n,
            len == original@.len(),
            n == original@.len() / 2,
            out@.len() == i,
            forall|k: int|
                0 <= k < i ==> out@[k] == (original@[2 * k] + 256 * original@[2 * k + 1]) as u16,
        decreases n - i,
    {
        let lo = original[2 * i];
        let hi = original[2 * i + 1];
        out.push(lo as u16 + 256 * (hi as u16));
        i = i + 1;
    }
    proof {
        assert(out@ =~= spec_u16_units(original@));
    }
    out
}

/// Classifies one finished invocation of the guest-management tool: a
/// successful exit is `Ok`; a non-zero exit carries the exit code and both
/// decodings of both output streams.
pub fn check_wsl_output(
    success: bool,
    code: i32,
    stderr_16: Option<String>,
    stderr_8: Option<String>,
    stdout_16: Option<String>,
    stdout_8: Option<String>,
) -> (r: Result<(), Error>)
    ensures
        success <==> r is Ok,
        !success ==> r == Err::<(), Error>(
            Error::BadStatus { code, stderr_16, stderr_8, stdout_16, stdout_8 },
        ),
{
    if success {
        Ok(())
    } else {
        Err(Error::BadStatus { code, stderr_16, stderr_8, stdout_16, stdout_8 })
    }
}

/// A decimal digit.
pub open spec fn is_digit(c: char) -> bool {
    48 <= c as int <= 57
}

/// The value of a decimal digit.
pub open spec fn digit_val(c: char) -> int {
    c as int - 48
}

/// Whether every character is a decimal digit.
pub open spec fn all_digits(s: Seq<char>) -> bool {
    forall|i: int| 0 <= i < s.len() ==> is_digit(#[trigger] s[i])
}

/// The numeric value of a digit string, most significant digit first.
pub open spec fn digits_value(s: Seq<char>) -> int
    decreases s.len(),
{
    if s.len() == 0 {
        0
    } else {
        10 * digits_value(s.drop_last()) + digit_val(s.last())
    }
}

/// What parsing a version field yields: the numeric value of a non-empty
/// all-digit string when it fits in 32 bits, nothing otherwise.
pub open spec fn spec_parse_u32(s: Seq<char>) -> Option<u32> {
    if s.len() > 0 && all_digits(s) && digits_value(s) <= u32::MAX {
        Some(digits_value(s) as u32)
    } else {
        None
    }
}

/// A digit string's value is non-negative.
proof fn lemma_digits_value_nonneg(s: Seq<char>)
    requires
        all_digits(s),
    ensures
        digits_value(s) >= 0,
    decreases s.len(),
{
    if s.len() > 0 {
        let s0 = s.drop_last();
        assert forall|i: int| 0 <= i < s0.len() implies is_digit(#[trigger] s0[i]) by {
            assert(s0[i] == s[i]);
        }
        lemma_digits_value_nonneg(s0);
        assert(is_digit(s.last()));
    }
}

/// A digit string's value is at least the value of any of its prefixes.
proof fn lemma_digits_value_extend(s: Seq<char>, i: int)
    requires
        all_digits(s),
        0 <= i <= s.len(),
    ensures
        digits_value(s.take(i)) <= digits_value(s),
    decreases s.len() - i,
{
    if i == s.len() {
        assert(s.take(i) =~= s);
    } else {
        let cur = s.take(i);
        let next = s.take(i + 1);
        assert(next.drop_last() =~= cur);
        assert(next.last() == s[i]);
        assert forall|k: int| 0 <= k < cur.len() implies is_digit(#[trigger] cur[k]) by {
            assert(cur[k] == s[k]);
        }
        lemma_digits_value_nonneg(cur);
        assert(digits_value(next) == 10 * digits_value(cur) + digit_val(s[i]));
        assert(digit_val(s[i]) >= 0);
        assert(digits_value(cur) <= digits_value(next));
        lemma_digits_value_extend(s, i + 1);
    }
}

/// Parses a decimal version field.
fn parse_u32_field(s: &str) -> (r: Option<u32>)
    ensures
        r == spec_parse_u32(s@),
{
    let n = s.unicode_len();
    if n == 0 {
        return None;
    }
    let mut acc: u32 = 0;
    proof {
        assert(s@.take(0) =~= Seq::<char>::empty());
    }
    let mut i: usize = 0;
    while i < n
        invariant
            0 <= i <= n,
            n == s@.len(),
            all_digits(s@.take(i as int)),
            acc as int == digits_value(s@.take(i as int)),
        decreases n - i,
    {
        let c = s.get_char(i);
        let code = c as u32;
        if code < 48 || code > 57 {
            proof {
                assert(!is_digit(s@[i as int]));
            }
            return None;
        }
        let d = code - 48;
        proof {
            assert(s@.take(i as int + 1).drop_last() =~= s@.take(i as int));
            assert(s@.take(i as int + 1).last() == s@[i as int]);
            assert forall|k: int| 0 <= k < i as int + 1 implies is_digit(
                #[trigger] s@.take(i as int + 1)[k],
            ) by {
                if k < i as int {
                    assert(s@.take(i as int)[k] == s@.take(i as int + 1)[k]);
                }
            }
        }
        if acc > (u32::MAX - d) / 10 {
            proof {
                assert(10 * acc as int + d as int > u32::MAX) by {
                    assert(acc as int >= (u32::MAX - d) as int / 10 + 1);
                    assert((u32::MAX - d) as int / 10 * 10 + 9 >= (u32::MAX - d) as int);
                }
                assert(digits_value(s@.take(i as int + 1)) > u32::MAX);
                if all_digits(s@) {
                    lemma_digits_value_extend(s@, i as int + 1);
                }
            }
            return None;
        }
        proof {
            assert(10 * acc as int + d as int <= u32::MAX) by {
                assert(acc as int <= (u32::MAX - d) as int / 10);
                assert((u32::MAX - d) as int / 10 * 10 <= (u32::MAX - d) as int);
            }
        }
        acc = 10 * acc + d;
        i = i + 1;
    }
    proof {
        assert(s@.take(n as int) =~= s@);
    }
    Some(acc)
}

/// The line without its leading active-entry marker, when one is present.
pub open spec fn strip_marker(line: Seq<char>) -> Seq<char> {
    if line.len() > 0 && line.first() == '*' {
        line.drop_first()
    } else {
        line
    }
}

/// What parsing one listing line yields: after stripping the marker, exactly
/// three whitespace-separated fields, the third a version number.
pub open spec fn spec_parse_line(line: Seq<char>) -> Option<WslDistributionView> {
    let fields = spec_fields(strip_marker(line));
    if fields.len() != 3 {
        None
    } else {
        match spec_parse_u32(fields[2]) {
            Some(v) => Some(WslDistributionView { name: fields[0], status: fields[1], version: v }),
            None => None,
        }
    }
}

/// What parsing the listing's body yields: every line parsed in order, or
/// nothing as soon as any line is malformed.
pub open spec fn spec_parse_lines(lines: Seq<Seq<char>>) -> Option<Seq<WslDistributionView>>
    decreases lines.len(),
{
    if lines.len() == 0 {
        Some(Seq::empty())
    } else {
        match (spec_parse_lines(lines.drop_last()), spec_parse_line(lines.last())) {
            (Some(rest), Some(d)) => Some(rest.push(d)),
            _ => None,
        }
    }
}

/// What parsing the whole list output yields: the header line is skipped and
/// every remaining line must parse.
pub open spec fn spec_parse_distributions(s: Seq<char>) -> Option<Seq<WslDistributionView>> {
    let lines = spec_lines(s);
    if lines.len() == 0 {
        Some(Seq::empty())
    } else {
        spec_parse_lines(lines.drop_first())
    }
}

/// A parsed body has every line well-formed.
proof fn lemma_parse_lines_some(lines: Seq<Seq<char>>)
    ensures
        spec_parse_lines(lines) is Some ==> forall|i: int|
            0 <= i < lines.len() ==> spec_parse_line(#[trigger] lines[i]) is Some,
    decreases lines.len(),
{
    if lines.len() > 0 {
        lemma_parse_lines_some(lines.drop_last());
        if spec_parse_lines(lines) is Some {
            assert forall|i: int| 0 <= i < lines.len() implies spec_parse_line(
                #[trigger] lines[i],
            ) is Some by {
                if i < lines.len() - 1 {
                    assert(lines.drop_last()[i] == lines[i]);
                }
            }
        }
    }
}

/// Parses one listing line into a distribution.
fn parse_line(line: &str) -> (r: Option<WslDistribution>)
    ensures
        match r {
            Some(d) => spec_parse_line(line@) == Some(d@),
            None => spec_parse_line(line@) is None,
        },
{
    let n = line.unicode_len();
    let stripped: &str = if n > 0 && line.get_char(0) == '*' {
        line.substring_char(1, n)
    } else {
        line
    };
    proof {
        if line@.len() > 0 && line@.first() == '*' {
            assert(line@.drop_first() =~= line@.subrange(1, n as int));
        }
        assert(stripped@ == strip_marker(line@));
    }
    let fields = split_fields(stripped);
    let ghost field_views = spec_fields(strip_marker(line@));
    if fields.len() != 3 {
        return None;
    }
    proof {
        assert(fields@[2]@ == field_views[2]);
        assert(fields@[0]@ == field_views[0]);
        assert(fields@[1]@ == field_views[1]);
    }
    match parse_u32_field(fields[2].as_str()) {
        None => None,
        Some(version) => {
            let d = WslDistribution {
                name: fields[0].clone(),
                status: fields[1].clone(),
                version,
            };
            Some(d)
        },
    }
}

/// Parses the guest-management tool's list output: the header line is
/// skipped, a leading active-entry marker is stripped, and each remaining
/// line must hold exactly a name, a status, and a version. Any malformed line
/// fails the whole call: no partial listing is trusted.
pub fn parse_distributions(output: &str) -> (r: Result<Vec<WslDistribution>, Error>)
    ensures
        match r {
            Ok(v) => spec_parse_distributions(output@) == Some(
                v@.map_values(|d: WslDistribution| d@),
            ),
            Err(e) => spec_parse_distributions(output@) is None && e matches
                Error::UnexpectedListOutput,
        },
{
    let lines = split_lines(output);
    let ghost line_views = spec_lines(output@);
    let mut out: Vec<WslDistribution> = Vec::new();
    proof {
        assert(out@.map_values(|d: WslDistribution| d@) =~= Seq::<WslDistributionView>::empty());
    }
    if lines.len() == 0 {
        return Ok(out);
    }
    let ghost body = line_views.drop_first();
    proof {
        assert(body.take(0) =~= Seq::<Seq<char>>::empty());
    }
    let m = lines.len();
    let mut i: usize = 1;
    while i < m
        invariant
            1 <= i <= m,
            m == lines@.len(),
            m >= 1,
            lines@.map_values(|t: String| t@) == line_views,
            line_views == spec_lines(output@),
            body == line_views.drop_first(),
            body.len() == m - 1,
            spec_parse_lines(body.take(i as int - 1)) == Some(
                out@.map_values(|d: WslDistribution| d@),
            ),
        decreases m - i,
    {
        proof {
            assert(lines@[i as int]@ == line_views[i as int]);
            assert(body[i as int - 1] == line_views[i as int]);
        }
        match parse_line(lines[i].as_str()) {
            None => {
                proof {
                    lemma_parse_lines_some(body);
                    if spec_parse_lines(body) is Some {
                        assert(spec_parse_line(body[i as int - 1]) is Some);
                    }
                }
                return Err(Error::UnexpectedListOutput);
            },
            Some(d) => {
                let ghost prev = out@.map_values(|dd: WslDistribution| dd@);
                let ghost dv = d@;
                out.push(d);
                proof {
                    assert(body.take(i as int).drop_last() =~= body.take(i as int - 1));
                    assert(body.take(i as int).last() == body[i as int - 1]);
                    assert(out@.map_values(|dd: WslDistribution| dd@) =~= prev.push(dv));
                }
            },
        }
        i = i + 1;
    }
    proof {
        assert(body.take(m as int - 1) =~= body);
    }
    Ok(out)
}

} // verus!
