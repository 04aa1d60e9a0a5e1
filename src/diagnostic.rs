//! One diagnostic record and the parser that reads it from a raw block.
use vstd::prelude::*;
use vstd::string::*;

use crate::text::{
    all_digits, class_run, digits_value, in_class, is_whitespace_char, lemma_run_exact, lemma_run_in_class, literal_at,
    literal_test, parse_u32_digits, run_len, CharClass,
};

verus! {

/// A parsed diagnostic.
#[derive(Debug)]
pub struct Error {
    /// The digits of the error code, without the leading `E`.
    pub num: String,
    pub message: String,
    pub file: String,
    pub line: u32,
    pub column: u32,
    /// Everything of the block after its locator line.
    pub details: String,
}

/// What a diagnostic holds, as mathematical values.
pub ghost struct DiagnosticModel {
    pub num: Seq<char>,
    pub message: Seq<char>,
    pub file: Seq<char>,
    pub line: u32,
    pub column: u32,
    pub details: Seq<char>,
}

impl View for Error {
    type V = DiagnosticModel;

    open spec fn view(&self) -> DiagnosticModel {
        DiagnosticModel {
            num: self.num@,
            message: self.message@,
            file: self.file@,
            line: self.line,
            column: self.column,
            details: self.details@,
        }
    }
}

/// Why a raw block is not a diagnostic.
#[derive(Clone, Copy, PartialEq, Eq, Structural, Debug)]
pub enum ParseError {
    /// The block has fewer than three lines.
    TooFewLines,
    /// The first line does not hold `error[E<digits>]: <message>`.
    BadHeader,
    /// The second line does not hold `<whitespace>--> <file>:<line>:<column>`.
    BadLocator,
    /// The line number does not fit in a `u32`.
    LineOutOfRange,
    /// The column number does not fit in a `u32`.
    ColumnOutOfRange,
}

impl Error {
    pub fn new(num: &str, message: &str, file: &str, line: u32, column: u32, details: &str) -> (r:
        Self)
        ensures
            r@ == (DiagnosticModel {
                num: num@,
                message: message@,
                file: file@,
                line,
                column,
                details: details@,
            }),
    {
        Error {
            num: num.to_owned(),
            message: message.to_owned(),
            file: file.to_owned(),
            line,
            column,
            details: details.to_owned(),
        }
    }
}

pub open spec fn header_prefix() -> Seq<char> {
    seq!['e', 'r', 'r', 'o', 'r', '[', 'E']
}

pub open spec fn arrow() -> Seq<char> {
    seq!['-', '-', '>', ' ']
}

/// Length of the error code of a header match at `i`.
pub open spec fn header_code_len(s: Seq<char>, i: int) -> nat {
    run_len(s, i + 7, CharClass::Digit)
}

/// `error[E<digits>]: ` stands in `s` at position `i`.
pub open spec fn header_at(s: Seq<char>, i: int) -> bool {
    let d = i + 7;
    let n = header_code_len(s, i);
    &&& literal_at(s, i, header_prefix())
    &&& n >= 1
    &&& d + n + 3 <= s.len()
    &&& s[d + n] == ']'
    &&& s[d + n + 1] == ':'
    &&& s[d + n + 2] == ' '
}

/// `i` is the leftmost position of a header match in `s`.
pub open spec fn first_header_at(s: Seq<char>, i: int) -> bool {
    header_at(s, i) && forall|j: int| 0 <= j < i ==> !#[trigger] header_at(s, j)
}

/// The line matches the header pattern `error[E<digits>]: <any text>`.
pub open spec fn is_header(s: Seq<char>) -> bool {
    exists|i: int| header_at(s, i)
}

pub open spec fn header_code(s: Seq<char>, i: int) -> Seq<char> {
    s.subrange(i + 7, i + 7 + header_code_len(s, i))
}

pub open spec fn header_message(s: Seq<char>, i: int) -> Seq<char> {
    s.subrange(i + 7 + header_code_len(s, i) + 3, s.len() as int)
}

/// Offsets of a locator match at `i`: start of the file, its length,
/// start of the line number, its length, start of the column, its length.
pub open spec fn locator_parts(s: Seq<char>, i: int) -> (int, int, int, int, int, int) {
    let p0 = i + run_len(s, i, CharClass::Whitespace) + 4;
    let pl = run_len(s, p0, CharClass::NotColon) as int;
    let l0 = p0 + pl + 1;
    let ll = run_len(s, l0, CharClass::Digit) as int;
    let c0 = l0 + ll + 1;
    let cl = run_len(s, c0, CharClass::Digit) as int;
    (p0, pl, l0, ll, c0, cl)
}

/// `<whitespace>--> <file>:<digits>:<digits>` stands in `s` at position `i`,
/// the file holding no `:`.
pub open spec fn locator_at(s: Seq<char>, i: int) -> bool {
    let (p0, pl, l0, ll, c0, cl) = locator_parts(s, i);
    &&& run_len(s, i, CharClass::Whitespace) >= 1
    &&& literal_at(s, p0 - 4, arrow())
    &&& pl >= 1
    &&& p0 + pl < s.len()
    &&& ll >= 1
    &&& l0 + ll < s.len()
    &&& s[l0 + ll] == ':'
    &&& cl >= 1
}

pub open spec fn first_locator_at(s: Seq<char>, i: int) -> bool {
    locator_at(s, i) && forall|j: int| 0 <= j < i ==> !#[trigger] locator_at(s, j)
}

pub open spec fn is_locator(s: Seq<char>) -> bool {
    exists|i: int| locator_at(s, i)
}

pub open spec fn locator_file(s: Seq<char>, i: int) -> Seq<char> {
    let (p0, pl, l0, ll, c0, cl) = locator_parts(s, i);
    s.subrange(p0, p0 + pl)
}

pub open spec fn locator_line(s: Seq<char>, i: int) -> Seq<char> {
    let (p0, pl, l0, ll, c0, cl) = locator_parts(s, i);
    s.subrange(l0, l0 + ll)
}

pub open spec fn locator_column(s: Seq<char>, i: int) -> Seq<char> {
    let (p0, pl, l0, ll, c0, cl) = locator_parts(s, i);
    s.subrange(c0, c0 + cl)
}

/// End of the first line of a block.
pub open spec fn first_break(b: Seq<char>) -> int {
    run_len(b, 0, CharClass::NotNewline) as int
}

/// End of the second line of a block that has one.
pub open spec fn second_break(b: Seq<char>) -> int {
    first_break(b) + 1 + run_len(b, first_break(b) + 1, CharClass::NotNewline)
}

/// The block has at least three lines.
pub open spec fn has_three_lines(b: Seq<char>) -> bool {
    first_break(b) < b.len() && second_break(b) < b.len()
}

pub open spec fn block_header(b: Seq<char>) -> Seq<char> {
    b.subrange(0, first_break(b))
}

/// The second line of a block (empty where there is none).
pub open spec fn block_locator(b: Seq<char>) -> Seq<char> {
    if first_break(b) < b.len() {
        b.subrange(first_break(b) + 1, second_break(b))
    } else {
        Seq::empty()
    }
}

pub open spec fn block_details(b: Seq<char>) -> Seq<char> {
    b.subrange(second_break(b) + 1, b.len() as int)
}

/// What parsing the raw block `b` gives.
pub open spec fn parse_spec(b: Seq<char>) -> Result<DiagnosticModel, ParseError> {
    let h = block_header(b);
    let l = block_locator(b);
    if !has_three_lines(b) {
        Err(ParseError::TooFewLines)
    } else if !is_header(h) {
        Err(ParseError::BadHeader)
    } else if !is_locator(l) {
        Err(ParseError::BadLocator)
    } else {
        let i = choose|i: int| first_header_at(h, i);
        let j = choose|j: int| first_locator_at(l, j);
        let line = digits_value(locator_line(l, j));
        let column = digits_value(locator_column(l, j));
        if line > u32::MAX {
            Err(ParseError::LineOutOfRange)
        } else if column > u32::MAX {
            Err(ParseError::ColumnOutOfRange)
        } else {
            Ok(
                DiagnosticModel {
                    num: header_code(h, i),
                    message: header_message(h, i),
                    file: locator_file(l, j),
                    line: line as u32,
                    column: column as u32,
                    details: block_details(b),
                },
            )
        }
    }
}

/// The code length of a header match at `i` in `s`, if there is one there.
fn header_match(s: &str, n: usize, i: usize) -> (r: Option<usize>)
    requires
        n == s@.len(),
    ensures
        match r {
            Some(k) => header_at(s@, i as int) && k == header_code_len(s@, i as int),
            None => !header_at(s@, i as int),
        },
{
    proof {
        reveal_strlit("error[E");
        assert("error[E"@ =~= header_prefix());
    }
    if !literal_test(s, n, i, "error[E") {
        return None;
    }
    let d = i + 7;
    let k = class_run(s, n, d, CharClass::Digit);
    if k == 0 || n - (d + k) < 3 {
        return None;
    }
    if s.get_char(d + k) == ']' && s.get_char(d + k + 1) == ':' && s.get_char(d + k + 2) == ' ' {
        Some(k)
    } else {
        None
    }
}

/// The leftmost header match in `s`, with the length of its code.
pub fn find_header(s: &str) -> (r: Option<(usize, usize)>)
    ensures
        match r {
            Some((i, k)) => first_header_at(s@, i as int) && k == header_code_len(s@, i as int),
            None => !is_header(s@),
        },
{
    let n = s.unicode_len();
    let mut i: usize = 0;
    while i < n
        invariant
            n == s@.len(),
            i <= n,
            forall|j: int| 0 <= j < i ==> !#[trigger] header_at(s@, j),
        decreases n - i,
    {
        match header_match(s, n, i) {
            Some(k) => {
                return Some((i, k));
            },
            None => {},
        }
        i = i + 1;
    }
    assert forall|j: int| header_at(s@, j) implies false by {
        assert(0 <= j < i);
    }
    None
}

/// Offsets of a locator match at `i` in `s` (see `locator_parts`).
fn locator_match(s: &str, n: usize, i: usize) -> (r: Option<(usize, usize, usize, usize, usize, usize)>)
    requires
        n == s@.len(),
    ensures
        match r {
            Some((p0, pl, l0, ll, c0, cl)) => {
                &&& locator_at(s@, i as int)
                &&& locator_parts(s@, i as int) == (
                    p0 as int,
                    pl as int,
                    l0 as int,
                    ll as int,
                    c0 as int,
                    cl as int,
                )
                &&& c0 + cl <= n
            },
            None => !locator_at(s@, i as int),
        },
{
    proof {
        reveal_strlit("--> ");
        assert("--> "@ =~= arrow());
    }
    if i > n {
        return None;
    }
    let a = class_run(s, n, i, CharClass::Whitespace);
    if a == 0 {
        return None;
    }
    let q = i + a;
    if !literal_test(s, n, q, "--> ") {
        return None;
    }
    let p0 = q + 4;
    let pl = class_run(s, n, p0, CharClass::NotColon);
    if pl == 0 || p0 + pl >= n {
        return None;
    }
    let l0 = p0 + pl + 1;
    let ll = class_run(s, n, l0, CharClass::Digit);
    if ll == 0 || l0 + ll >= n {
        return None;
    }
    if s.get_char(l0 + ll) != ':' {
        return None;
    }
    let c0 = l0 + ll + 1;
    let cl = class_run(s, n, c0, CharClass::Digit);
    if cl == 0 {
        return None;
    }
    Some((p0, pl, l0, ll, c0, cl))
}

/// The leftmost locator match in `s`, with its offsets.
pub fn find_locator(s: &str) -> (r: Option<(usize, (usize, usize, usize, usize, usize, usize))>)
    ensures
        match r {
            Some((i, (p0, pl, l0, ll, c0, cl))) => {
                &&& first_locator_at(s@, i as int)
                &&& locator_parts(s@, i as int) == (
                    p0 as int,
                    pl as int,
                    l0 as int,
                    ll as int,
                    c0 as int,
                    cl as int,
                )
                &&& c0 + cl <= s@.len()
            },
            None => !is_locator(s@),
        },
{
    let n = s.unicode_len();
    let mut i: usize = 0;
    while i < n
        invariant
            n == s@.len(),
            i <= n,
            forall|j: int| 0 <= j < i ==> !#[trigger] locator_at(s@, j),
        decreases n - i,
    {
        match locator_match(s, n, i) {
            Some(t) => {
                return Some((i, t));
            },
            None => {},
        }
        i = i + 1;
    }
    assert forall|j: int| locator_at(s@, j) implies false by {
        if j >= n {
            assert(run_len(s@, j, CharClass::Whitespace) == 0);
        }
    }
    None
}

impl Error {
    /// Parses one raw block: a header line, a locator line and the details
    /// after them.
    pub fn parse_block(b: &str) -> (r: Result<Error, ParseError>)
        ensures
            match r {
                Ok(e) => parse_spec(b@) == Ok::<DiagnosticModel, ParseError>(e@),
                Err(x) => parse_spec(b@) == Err::<DiagnosticModel, ParseError>(x),
            },
    {
        let n = b.unicode_len();
        let nl1 = class_run(b, n, 0, CharClass::NotNewline);
        if nl1 >= n {
            return Err(ParseError::TooFewLines);
        }
        let nl2 = nl1 + 1 + class_run(b, n, nl1 + 1, CharClass::NotNewline);
        if nl2 >= n {
            return Err(ParseError::TooFewLines);
        }
        let h = b.substring_char(0, nl1);
        let l = b.substring_char(nl1 + 1, nl2);
        let details = b.substring_char(nl2 + 1, n);
        let ghost hs = block_header(b@);
        let ghost ls = block_locator(b@);
        assert(h@ == hs);
        assert(l@ == ls);
        let (i, k) = match find_header(h) {
            Some(t) => t,
            None => {
                return Err(ParseError::BadHeader);
            },
        };
        let (j, (p0, pl, l0, ll, c0, cl)) = match find_locator(l) {
            Some(t) => t,
            None => {
                return Err(ParseError::BadLocator);
            },
        };
        let ghost ci = choose|ci: int| first_header_at(hs, ci);
        let ghost cj = choose|cj: int| first_locator_at(ls, cj);
        proof {
            assert(ci == i as int) by {
                if ci < i {
                    assert(header_at(hs, ci));
                } else if ci > i {
                    assert(header_at(hs, i as int));
                }
            }
            assert(cj == j as int) by {
                if cj < j {
                    assert(locator_at(ls, cj));
                } else if cj > j {
                    assert(locator_at(ls, j as int));
                }
            }
            lemma_run_in_class(ls, l0 as int, CharClass::Digit);
            lemma_run_in_class(ls, c0 as int, CharClass::Digit);
            assert(all_digits(ls.subrange(l0 as int, l0 + ll)));
            assert(all_digits(ls.subrange(c0 as int, c0 + cl)));
        }
        let ln = nl2 - (nl1 + 1);
        let line = match parse_u32_digits(l, ln, l0, ll) {
            Some(v) => v,
            None => {
                return Err(ParseError::LineOutOfRange);
            },
        };
        let column = match parse_u32_digits(l, ln, c0, cl) {
            Some(v) => v,
            None => {
                return Err(ParseError::ColumnOutOfRange);
            },
        };
        proof {
            lemma_run_in_class(hs, i + 7, CharClass::Digit);
        }
        let code = h.substring_char(i + 7, i + 7 + k);
        let message = h.substring_char(i + 7 + k + 3, nl1);
        let file = l.substring_char(p0, p0 + pl);
        Ok(Error::new(code, message, file, line, column, details))
    }
}

/// A header line: `error[E<code>]: <message>`.
pub open spec fn header_text(code: Seq<char>, message: Seq<char>) -> Seq<char> {
    header_prefix() + code + seq![']', ':', ' '] + message
}

/// A locator line: `indent`, then `--> <file>:<line>:<column>`.
pub open spec fn locator_text(
    indent: Seq<char>,
    file: Seq<char>,
    line: Seq<char>,
    column: Seq<char>,
) -> Seq<char> {
    indent + arrow() + file + seq![':'] + line + seq![':'] + column
}

/// A raw block: header, locator and details joined by line feeds.
pub open spec fn block_text(header: Seq<char>, locator: Seq<char>, details: Seq<char>) -> Seq<char> {
    header + seq!['\n'] + locator + seq!['\n'] + details
}

/// A block written from a code, a message, a file, a line, a column and
/// details parses back into exactly those fields.
pub proof fn lemma_round_trip(
    code: Seq<char>,
    message: Seq<char>,
    indent: Seq<char>,
    file: Seq<char>,
    line: Seq<char>,
    column: Seq<char>,
    details: Seq<char>,
)
    requires
        code.len() >= 1,
        all_digits(code),
        forall|t: int| 0 <= t < message.len() ==> #[trigger] message[t] != '\n',
        indent.len() >= 1,
        forall|t: int|
            0 <= t < indent.len() ==> #[trigger] in_class(CharClass::Whitespace, indent[t])
                && indent[t] != '\n',
        file.len() >= 1,
        forall|t: int| 0 <= t < file.len() ==> #[trigger] file[t] != ':' && file[t] != '\n',
        line.len() >= 1,
        all_digits(line),
        digits_value(line) <= u32::MAX,
        column.len() >= 1,
        all_digits(column),
        digits_value(column) <= u32::MAX,
    ensures
        parse_spec(block_text(header_text(code, message), locator_text(indent, file, line, column), details))
            == Ok::<DiagnosticModel, ParseError>(
            DiagnosticModel {
                num: code,
                message,
                file,
                line: digits_value(line) as u32,
                column: digits_value(column) as u32,
                details,
            },
        ),
{
    let h = header_text(code, message);
    let l = locator_text(indent, file, line, column);
    let b = block_text(h, l, details);
    lemma_header_text(code, message);
    let ci = choose|ci: int| first_header_at(h, ci);
    assert(ci == 0) by {
        if ci > 0 {
            assert(header_at(h, 0));
        }
    }
    lemma_locator_text(indent, file, line, column);
    let cj = choose|cj: int| first_locator_at(l, cj);
    assert(cj == 0) by {
        if cj > 0 {
            assert(locator_at(l, 0));
        }
    }
    lemma_block_text(h, l, details);
    assert(has_three_lines(b));
    assert(is_header(block_header(b)));
    assert(is_locator(block_locator(b)));
}

/// A block made of a header line, a locator line and details, none of
/// the first two holding a line feed, splits back into those three parts.
pub proof fn lemma_block_text(h: Seq<char>, l: Seq<char>, details: Seq<char>)
    requires
        forall|t: int| 0 <= t < h.len() ==> #[trigger] h[t] != '\n',
        forall|t: int| 0 <= t < l.len() ==> #[trigger] l[t] != '\n',
    ensures
        has_three_lines(block_text(h, l, details)),
        block_header(block_text(h, l, details)) == h,
        block_locator(block_text(h, l, details)) == l,
        block_details(block_text(h, l, details)) == details,
{
    let b = block_text(h, l, details);
    let hn = h.len() as int;
    let ln = l.len() as int;
    assert forall|t: int| 0 <= t < hn implies in_class(CharClass::NotNewline, #[trigger] b[t]) by {
        assert(b[t] == h[t]);
    }
    lemma_run_exact(b, 0, hn, CharClass::NotNewline);
    assert forall|t: int| hn + 1 <= t < hn + 1 + ln implies in_class(
        CharClass::NotNewline,
        #[trigger] b[t],
    ) by {
        assert(b[t] == l[t - (hn + 1)]);
    }
    lemma_run_exact(b, hn + 1, ln, CharClass::NotNewline);
    assert(block_header(b) =~= h);
    assert(block_locator(b) =~= l);
    assert(block_details(b) =~= details);
}

proof fn lemma_header_text(code: Seq<char>, message: Seq<char>)
    requires
        code.len() >= 1,
        all_digits(code),
        forall|t: int| 0 <= t < message.len() ==> #[trigger] message[t] != '\n',
    ensures
        first_header_at(header_text(code, message), 0),
        header_code(header_text(code, message), 0) == code,
        header_message(header_text(code, message), 0) == message,
        forall|t: int|
            0 <= t < header_text(code, message).len() ==> #[trigger] header_text(code, message)[t]
                != '\n',
{
    let h = header_text(code, message);
    let cn = code.len() as int;
    assert forall|t: int| 7 <= t < 7 + cn implies in_class(CharClass::Digit, #[trigger] h[t]) by {
        assert(h[t] == code[t - 7]);
    }
    lemma_run_exact(h, 7, cn, CharClass::Digit);
    assert(h.subrange(0, 7) =~= header_prefix());
    assert(header_at(h, 0));
    assert(header_code(h, 0) =~= code);
    assert(header_message(h, 0) =~= message);
    assert forall|t: int| 0 <= t < h.len() implies #[trigger] h[t] != '\n' by {
        if 7 <= t < 7 + cn {
            assert(in_class(CharClass::Digit, h[t]));
        } else if t >= 7 + cn + 3 {
            assert(h[t] == message[t - (7 + cn + 3)]);
        }
    }
}

proof fn lemma_locator_text(indent: Seq<char>, file: Seq<char>, line: Seq<char>, column: Seq<char>)
    requires
        indent.len() >= 1,
        forall|t: int|
            0 <= t < indent.len() ==> #[trigger] in_class(CharClass::Whitespace, indent[t])
                && indent[t] != '\n',
        file.len() >= 1,
        forall|t: int| 0 <= t < file.len() ==> #[trigger] file[t] != ':' && file[t] != '\n',
        line.len() >= 1,
        all_digits(line),
        column.len() >= 1,
        all_digits(column),
    ensures
        first_locator_at(locator_text(indent, file, line, column), 0),
        locator_file(locator_text(indent, file, line, column), 0) == file,
        locator_line(locator_text(indent, file, line, column), 0) == line,
        locator_column(locator_text(indent, file, line, column), 0) == column,
        forall|t: int|
            0 <= t < locator_text(indent, file, line, column).len() ==> #[trigger] locator_text(
                indent,
                file,
                line,
                column,
            )[t] != '\n',
{
    let l = locator_text(indent, file, line, column);
    let ind = indent.len() as int;
    let p0 = ind + 4;
    let fl = file.len() as int;
    let l0 = p0 + fl + 1;
    let ll = line.len() as int;
    let c0 = l0 + ll + 1;
    let cl = column.len() as int;
    assert(l.len() == c0 + cl);
    assert forall|t: int| 0 <= t < ind implies in_class(CharClass::Whitespace, #[trigger] l[t]) by {
        assert(l[t] == indent[t]);
    }
    assert(l[ind] == '-');
    assert(!in_class(CharClass::Whitespace, l[ind])) by {
        reveal(is_whitespace_char);
    }
    lemma_run_exact(l, 0, ind, CharClass::Whitespace);
    assert forall|t: int| p0 <= t < p0 + fl implies in_class(CharClass::NotColon, #[trigger] l[t]) by {
        assert(l[t] == file[t - p0]);
    }
    lemma_run_exact(l, p0, fl, CharClass::NotColon);
    assert forall|t: int| l0 <= t < l0 + ll implies in_class(CharClass::Digit, #[trigger] l[t]) by {
        assert(l[t] == line[t - l0]);
    }
    lemma_run_exact(l, l0, ll, CharClass::Digit);
    assert forall|t: int| c0 <= t < c0 + cl implies in_class(CharClass::Digit, #[trigger] l[t]) by {
        assert(l[t] == column[t - c0]);
    }
    lemma_run_exact(l, c0, cl, CharClass::Digit);
    assert(l.subrange(ind, p0) =~= arrow());
    assert(locator_parts(l, 0) == (p0, fl, l0, ll, c0, cl));
    assert(locator_at(l, 0));
    assert(locator_file(l, 0) =~= file);
    assert(locator_line(l, 0) =~= line);
    assert(locator_column(l, 0) =~= column);
    assert forall|t: int| 0 <= t < l.len() implies #[trigger] l[t] != '\n' by {
        if t < ind {
            assert(l[t] == indent[t]);
        } else if p0 <= t < p0 + fl {
            assert(l[t] == file[t - p0]);
        } else if l0 <= t < l0 + ll {
            assert(in_class(CharClass::Digit, l[t]));
        } else if c0 <= t {
            assert(in_class(CharClass::Digit, l[t]));
        }
    }
}

} // verus!
