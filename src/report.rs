//! A whole run: blocks parsed in order, and the plan of what a terminal view shows.
use vstd::prelude::*;
use vstd::string::*;

use crate::diagnostic::{
    block_details, block_text, lemma_block_text, arrow, block_locator, has_three_lines, is_header, block_header, locator_at, locator_parts,
    parse_spec, DiagnosticModel, Error, ParseError,
};
use crate::text::literal_at;
use crate::scanner::{
    is_noise, join_lines, lemma_back_to_back, lemma_join_front, lemma_noise_insertion, lines_view,
    scan_blocks, scan_spec, well_formed_group,
};

verus! {

/// Width of a separator line, in glyphs.
pub const RULE_WIDTH: usize = 100;

/// All blocks parsed in order; the first block that fails to parse decides
/// the error.
pub open spec fn parse_all_spec(bs: Seq<Seq<char>>) -> Result<Seq<DiagnosticModel>, ParseError>
    decreases bs.len(),
{
    if bs.len() == 0 {
        Ok(Seq::empty())
    } else {
        match parse_all_spec(bs.drop_last()) {
            Err(e) => Err(e),
            Ok(v) => match parse_spec(bs.last()) {
                Ok(d) => Ok(v.push(d)),
                Err(e) => Err(e),
            },
        }
    }
}

/// What a run over the input lines gives.
pub open spec fn collect_spec(lines: Seq<Seq<char>>) -> Result<Seq<DiagnosticModel>, ParseError> {
    parse_all_spec(scan_spec(lines))
}

pub open spec fn errors_view(v: Seq<Error>) -> Seq<DiagnosticModel> {
    v.map_values(|e: Error| e@)
}

/// Groups the lines into blocks and parses each of them; fails on the
/// first block that is not a diagnostic.
pub fn collect_errors(lines: &Vec<String>) -> (r: Result<Vec<Error>, ParseError>)
    ensures
        match r {
            Ok(v) => collect_spec(lines_view(lines@)) == Ok::<Seq<DiagnosticModel>, ParseError>(
                errors_view(v@),
            ),
            Err(e) => collect_spec(lines_view(lines@)) == Err::<Seq<DiagnosticModel>, ParseError>(
                e,
            ),
        },
{
    let blocks = scan_blocks(lines);
    let ghost bs = lines_view(blocks@);
    let mut out: Vec<Error> = Vec::new();
    let mut k: usize = 0;
    assert(bs.take(0) =~= Seq::<Seq<char>>::empty());
    assert(errors_view(out@) =~= Seq::<DiagnosticModel>::empty());
    while k < blocks.len()
        invariant
            bs == lines_view(blocks@),
            bs == scan_spec(lines_view(lines@)),
            k <= blocks@.len(),
            parse_all_spec(bs.take(k as int)) == Ok::<Seq<DiagnosticModel>, ParseError>(
                errors_view(out@),
            ),
        decreases blocks.len() - k,
    {
        assert(bs.take(k + 1).drop_last() =~= bs.take(k as int));
        assert(bs.take(k + 1).last() == blocks@[k as int]@);
        match Error::parse_block(blocks[k].as_str()) {
            Ok(e) => {
                let ghost before = out@;
                let ghost ev = e@;
                out.push(e);
                assert(errors_view(out@) =~= errors_view(before).push(ev));
            },
            Err(x) => {
                proof {
                    lemma_parse_all_keeps_error(bs, k as int + 1);
                }
                return Err(x);
            },
        }
        k = k + 1;
    }
    assert(bs.take(k as int) =~= bs);
    Ok(out)
}

/// Once a prefix of the blocks fails, so do all the blocks.
proof fn lemma_parse_all_keeps_error(bs: Seq<Seq<char>>, k: int)
    requires
        0 <= k <= bs.len(),
        parse_all_spec(bs.take(k)) is Err,
    ensures
        parse_all_spec(bs) == parse_all_spec(bs.take(k)),
    decreases bs.len() - k,
{
    if k < bs.len() {
        assert(bs.take(k + 1).drop_last() =~= bs.take(k));
        lemma_parse_all_keeps_error(bs, k + 1);
    } else {
        assert(bs.take(k) =~= bs);
    }
}

/// One element of the terminal view, from top to bottom.
#[derive(Clone, Copy, PartialEq, Eq, Structural, Debug)]
pub enum Part {
    /// The separator line above each diagnostic shown.
    Separator,
    /// The diagnostic of this index.
    Entry(usize),
    /// The blank line after the last diagnostic.
    BlankLine,
    /// The closing separator line.
    Closing,
}

/// The view of the first `n` diagnostics: a separator before each, then a
/// blank line and the closing separator.
pub open spec fn plan_spec(n: nat) -> Seq<Part> {
    Seq::new(2 * n, |k: int| if k % 2 == 0 { Part::Separator } else { Part::Entry((k / 2) as usize) })
        + seq![Part::BlankLine, Part::Closing]
}

pub open spec fn shown_count(available: nat, requested: nat) -> nat {
    if requested < available {
        requested
    } else {
        available
    }
}

/// What a view of `available` diagnostics shows when `requested` are asked for.
pub fn display_plan(available: usize, requested: u32) -> (r: Vec<Part>)
    ensures
        r@ == plan_spec(shown_count(available as nat, requested as nat)),
{
    let n: usize = if (requested as u64) < (available as u64) {
        requested as usize
    } else {
        available
    };
    let mut out: Vec<Part> = Vec::new();
    let mut i: usize = 0;
    while i < n
        invariant
            n <= available,
            n == shown_count(available as nat, requested as nat),
            i <= n,
            out@ =~= Seq::new(
                2 * i as nat,
                |k: int| if k % 2 == 0 { Part::Separator } else { Part::Entry((k / 2) as usize) },
            ),
        decreases n - i,
    {
        out.push(Part::Separator);
        out.push(Part::Entry(i));
        i = i + 1;
    }
    out.push(Part::BlankLine);
    out.push(Part::Closing);
    out
}

/// `glyph` repeated `n` times.
pub open spec fn repeat(glyph: Seq<char>, n: nat) -> Seq<char>
    decreases n,
{
    if n == 0 {
        Seq::empty()
    } else {
        repeat(glyph, (n - 1) as nat) + glyph
    }
}

/// A separator line: `glyph` repeated across the width of the view.
pub fn rule_line(glyph: &str) -> (r: String)
    ensures
        r@ == repeat(glyph@, RULE_WIDTH as nat),
{
    let mut out = String::new();
    let mut i: usize = 0;
    while i < RULE_WIDTH
        invariant
            i <= RULE_WIDTH,
            out@ == repeat(glyph@, i as nat),
        decreases RULE_WIDTH - i,
    {
        out.append(glyph);
        i = i + 1;
    }
    out
}

/// The line holds a `-->` arrow.
pub open spec fn has_arrow(l: Seq<char>) -> bool {
    exists|i: int| literal_at(l, i, seq!['-', '-', '>'])
}

proof fn lemma_parse_all_fails(bs: Seq<Seq<char>>, k: int)
    requires
        0 <= k < bs.len(),
        parse_spec(bs[k]) is Err,
    ensures
        parse_all_spec(bs) is Err,
    decreases bs.len(),
{
    if k < bs.len() - 1 {
        assert(bs.drop_last()[k] == bs[k]);
        lemma_parse_all_fails(bs.drop_last(), k);
    }
}

/// A block whose second line holds no `-->` arrow aborts the whole run:
/// no diagnostic comes out of it.
pub proof fn lemma_missing_arrow_fatal(lines: Seq<Seq<char>>, k: int)
    requires
        0 <= k < scan_spec(lines).len(),
        !has_arrow(block_locator(scan_spec(lines)[k])),
    ensures
        collect_spec(lines) is Err,
{
    let b = scan_spec(lines)[k];
    let l = block_locator(b);
    assert forall|i: int| !locator_at(l, i) by {
        if locator_at(l, i) {
            let p0 = locator_parts(l, i).0;
            assert(literal_at(l, p0 - 4, arrow()));
            assert(l.subrange(p0 - 4, p0 - 1) =~= seq!['-', '-', '>']) by {
                assert(l.subrange(p0 - 4, p0 - 1) =~= l.subrange(p0 - 4, p0).subrange(0, 3));
            }
            assert(literal_at(l, p0 - 4, seq!['-', '-', '>']));
        }
    }
    if has_three_lines(b) && is_header(block_header(b)) {
        assert(parse_spec(b) == Err::<DiagnosticModel, ParseError>(ParseError::BadLocator));
    }
    lemma_parse_all_fails(scan_spec(lines), k);
}

/// Lines that are not headers, inserted before the first header or right
/// after a blank line, change nothing in what a run gives.
pub proof fn lemma_noise_leaves_errors(
    before: Seq<Seq<char>>,
    noise: Seq<Seq<char>>,
    after: Seq<Seq<char>>,
)
    requires
        is_noise(before) || (before.len() > 0 && before.last().len() == 0),
        is_noise(noise),
    ensures
        collect_spec(before + noise + after) == collect_spec(before + after),
{
    lemma_noise_insertion(before, noise, after);
}

/// Two diagnostics with no blank line between them: the block of the first
/// ends with its own last line, so its details are exactly its lines after
/// the locator, and the second is a block of its own.
pub proof fn lemma_back_to_back_details(first: Seq<Seq<char>>, second: Seq<Seq<char>>)
    requires
        well_formed_group(first),
        well_formed_group(second),
        first.len() >= 3,
        forall|k: int, t: int|
            0 <= k < first.len() && 0 <= t < first[k].len() ==> #[trigger] first[k][t] != '\n',
    ensures
        scan_spec(first + second).len() == 2,
        block_details(scan_spec(first + second)[0]) == join_lines(first.skip(2)),
        scan_spec(first + second)[1] == join_lines(second),
        collect_spec(first + second) is Ok ==> collect_spec(first + second)->Ok_0.len() == 2
            && collect_spec(first + second)->Ok_0[0].details == join_lines(first.skip(2)),
{
    lemma_back_to_back(first, second);
    let rest = first.skip(1);
    lemma_join_front(first);
    lemma_join_front(rest);
    assert(rest[0] == first[1]);
    assert(rest.skip(1) =~= first.skip(2));
    let tail = join_lines(first.skip(2));
    assert(join_lines(first) =~= block_text(first[0], first[1], tail));
    assert forall|t: int| 0 <= t < first[0].len() implies #[trigger] first[0][t] != '\n' by {
        assert(first[0][t] != '\n');
    }
    assert forall|t: int| 0 <= t < first[1].len() implies #[trigger] first[1][t] != '\n' by {
        assert(first[1][t] != '\n');
    }
    lemma_block_text(first[0], first[1], tail);
    let bs = scan_spec(first + second);
    assert(bs.drop_last() =~= seq![bs[0]]);
    assert(seq![bs[0]].drop_last() =~= Seq::<Seq<char>>::empty());
    if collect_spec(first + second) is Ok {
        let one = bs.drop_last();
        assert(parse_all_spec(Seq::<Seq<char>>::empty()) == Ok::<
            Seq<DiagnosticModel>,
            ParseError,
        >(Seq::empty()));
        assert(parse_all_spec(one) is Ok);
        assert(parse_spec(bs[0]) is Ok);
        assert(parse_spec(bs[0])->Ok_0.details == block_details(bs[0]));
        assert(parse_all_spec(one)->Ok_0 =~= seq![parse_spec(bs[0])->Ok_0]);
    }
}

} // verus!
