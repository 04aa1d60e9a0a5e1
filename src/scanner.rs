//! The block scanner: groups input lines into raw diagnostic blocks.
use vstd::prelude::*;
use vstd::string::*;

use crate::diagnostic::{find_header, header_at, is_header, header_prefix};
use crate::text::literal_at;

verus! {

/// State of the scanner between two lines.
pub ghost struct ScanState {
    /// Blocks closed and emitted so far.
    pub done: Seq<Seq<char>>,
    /// The block that is accumulating, or that was closed by a blank line
    /// and is not emitted yet.
    pub current: Seq<char>,
    /// Some header has been seen, so `current` holds a block.
    pub started: bool,
    /// Lines are being appended to `current` (the `in-block` state).
    pub reading: bool,
}

pub open spec fn scan_start() -> ScanState {
    ScanState { done: Seq::empty(), current: Seq::empty(), started: false, reading: false }
}

/// One line fed to the scanner.
pub open spec fn scan_step(st: ScanState, line: Seq<char>) -> ScanState {
    if is_header(line) {
        ScanState {
            done: if st.started {
                st.done.push(st.current)
            } else {
                st.done
            },
            current: line,
            started: true,
            reading: true,
        }
    } else if st.reading {
        if line.len() > 0 {
            ScanState { current: st.current + seq!['\n'] + line, ..st }
        } else {
            ScanState { reading: false, ..st }
        }
    } else {
        st
    }
}

/// The lines fed to the scanner one after the other from state `st`.
pub open spec fn scan_run(st: ScanState, lines: Seq<Seq<char>>) -> ScanState
    decreases lines.len(),
{
    if lines.len() == 0 {
        st
    } else {
        scan_step(scan_run(st, lines.drop_last()), lines.last())
    }
}

/// End of input: the pending block, if any, is emitted.
pub open spec fn scan_finish(st: ScanState) -> Seq<Seq<char>> {
    if st.started {
        st.done.push(st.current)
    } else {
        st.done
    }
}

/// The raw blocks of an input.
pub open spec fn scan_spec(lines: Seq<Seq<char>>) -> Seq<Seq<char>> {
    scan_finish(scan_run(scan_start(), lines))
}

pub open spec fn lines_view(lines: Seq<String>) -> Seq<Seq<char>> {
    lines.map_values(|l: String| l@)
}

/// Whether `line` matches the header pattern.
pub fn is_header_line(line: &str) -> (r: bool)
    ensures
        r == is_header(line@),
{
    match find_header(line) {
        Some(_) => true,
        None => false,
    }
}

/// Groups input lines into raw blocks: each block is its lines joined by
/// line feeds, from a header line up to a blank line or the next header.
/// Lines outside a block are dropped.
pub fn scan_blocks(lines: &Vec<String>) -> (r: Vec<String>)
    ensures
        lines_view(r@) == scan_spec(lines_view(lines@)),
{
    let ghost ls = lines_view(lines@);
    let mut blocks: Vec<String> = Vec::new();
    let mut current = String::new();
    let mut started = false;
    let mut reading = false;
    let mut idx: usize = 0;
    assert(ls.take(0) =~= Seq::<Seq<char>>::empty());
    assert(lines_view(blocks@) =~= Seq::<Seq<char>>::empty());
    while idx < lines.len()
        invariant
            ls == lines_view(lines@),
            idx <= lines@.len(),
            scan_run(scan_start(), ls.take(idx as int)) == (ScanState {
                done: lines_view(blocks@),
                current: current@,
                started,
                reading,
            }),
        decreases lines.len() - idx,
    {
        let line: &String = &lines[idx];
        assert(ls.take(idx + 1).drop_last() =~= ls.take(idx as int));
        assert(ls.take(idx + 1).last() == line@);
        if is_header_line(line.as_str()) {
            if started {
                let ghost before = blocks@;
                let ghost cur = current@;
                blocks.push(current);
                assert(lines_view(blocks@) =~= lines_view(before).push(cur));
            }
            current = line.clone();
            assert(current@ == line@);
            started = true;
            reading = true;
        } else if reading {
            if !line.as_str().is_empty() {
                proof {
                    reveal_strlit("\n");
                }
                current.append("\n");
                current.append(line.as_str());
                assert("\n"@ =~= seq!['\n']);
            } else {
                reading = false;
            }
        }
        idx = idx + 1;
    }
    assert(ls.take(idx as int) =~= ls);
    if started {
        let ghost before = blocks@;
        let ghost cur = current@;
        blocks.push(current);
        assert(lines_view(blocks@) =~= lines_view(before).push(cur));
    }
    blocks
}

/// Lines joined by line feeds.
pub open spec fn join_lines(g: Seq<Seq<char>>) -> Seq<char>
    decreases g.len(),
{
    if g.len() == 0 {
        Seq::empty()
    } else if g.len() == 1 {
        g[0]
    } else {
        join_lines(g.drop_last()) + seq!['\n'] + g.last()
    }
}

/// A diagnostic as it stands in the input: a header line, then non-blank
/// lines that are not headers.
pub open spec fn well_formed_group(g: Seq<Seq<char>>) -> bool {
    &&& g.len() >= 1
    &&& is_header(g[0])
    &&& forall|k: int| 1 <= k < g.len() ==> (#[trigger] g[k]).len() > 0 && !is_header(g[k])
}

/// Lines none of which is a header.
pub open spec fn is_noise(n: Seq<Seq<char>>) -> bool {
    forall|k: int| 0 <= k < n.len() ==> !is_header(#[trigger] n[k])
}

/// What may follow a diagnostic before the next one: nothing, or a blank
/// line and then lines that are not headers.
pub open spec fn is_gap(n: Seq<Seq<char>>) -> bool {
    n.len() == 0 || (n[0].len() == 0 && forall|k: int| 1 <= k < n.len() ==> !is_header(#[trigger] n[k]))
}

/// Each group followed by its gap, in order.
pub open spec fn interleave(groups: Seq<Seq<Seq<char>>>, gaps: Seq<Seq<Seq<char>>>) -> Seq<Seq<char>>
    decreases groups.len(),
{
    if groups.len() == 0 || gaps.len() == 0 {
        Seq::empty()
    } else {
        interleave(groups.drop_last(), gaps.drop_last()) + groups.last() + gaps.last()
    }
}

pub open spec fn joined_groups(groups: Seq<Seq<Seq<char>>>) -> Seq<Seq<char>> {
    groups.map_values(|g: Seq<Seq<char>>| join_lines(g))
}

/// The gap after each group: one blank line where `blank_after` says so,
/// nothing otherwise.
pub open spec fn separators(blank_after: Seq<bool>) -> Seq<Seq<Seq<char>>> {
    blank_after.map_values(
        |b: bool|
            if b {
                seq![Seq::<char>::empty()]
            } else {
                Seq::<Seq<char>>::empty()
            },
    )
}

proof fn lemma_blank_not_header()
    ensures
        !is_header(Seq::<char>::empty()),
{
    assert forall|i: int| !header_at(Seq::<char>::empty(), i) by {
        assert(!literal_at(Seq::<char>::empty(), i, header_prefix()));
    }
}

proof fn lemma_run_concat(st: ScanState, a: Seq<Seq<char>>, b: Seq<Seq<char>>)
    ensures
        scan_run(st, a + b) == scan_run(scan_run(st, a), b),
    decreases b.len(),
{
    if b.len() == 0 {
        assert(a + b =~= a);
    } else {
        assert((a + b).drop_last() =~= a + b.drop_last());
        assert((a + b).last() == b.last());
        lemma_run_concat(st, a, b.drop_last());
    }
}

proof fn lemma_run_noise(st: ScanState, n: Seq<Seq<char>>)
    requires
        !st.reading,
        is_noise(n),
    ensures
        scan_run(st, n) == st,
    decreases n.len(),
{
    if n.len() > 0 {
        lemma_run_noise(st, n.drop_last());
        assert(!is_header(n[n.len() - 1]));
    }
}

proof fn lemma_run_group(st: ScanState, g: Seq<Seq<char>>)
    requires
        well_formed_group(g),
    ensures
        scan_run(st, g) == (ScanState {
            done: if st.started {
                st.done.push(st.current)
            } else {
                st.done
            },
            current: join_lines(g),
            started: true,
            reading: true,
        }),
    decreases g.len(),
{
    if g.len() == 1 {
        assert(g.drop_last() =~= Seq::<Seq<char>>::empty());
        assert(scan_run(st, g.drop_last()) == st);
        assert(g.last() == g[0]);
    } else {
        let h = g.drop_last();
        assert(h[0] == g[0]);
        assert forall|k: int| 1 <= k < h.len() implies (#[trigger] h[k]).len() > 0 && !is_header(
            h[k],
        ) by {
            assert(h[k] == g[k]);
        }
        lemma_run_group(st, h);
        assert(g.last() == g[g.len() - 1]);
        assert(!is_header(g.last()) && g.last().len() > 0);
        let s0 = scan_run(st, h);
        assert(scan_run(st, g) == scan_step(s0, g.last()));
        assert(join_lines(g) == join_lines(h) + seq!['\n'] + g.last());
    }
}

proof fn lemma_run_gap(st: ScanState, n: Seq<Seq<char>>)
    requires
        st.reading,
        is_gap(n),
    ensures
        scan_run(st, n).done == st.done,
        scan_run(st, n).current == st.current,
        scan_run(st, n).started == st.started,
{
    if n.len() > 0 {
        lemma_blank_not_header();
        let first = n.take(1);
        let rest = n.skip(1);
        assert(n =~= first + rest);
        lemma_run_concat(st, first, rest);
        assert(first.drop_last() =~= Seq::<Seq<char>>::empty());
        let s1 = scan_run(st, first);
        assert(n[0] =~= Seq::<char>::empty());
        assert(first.last() == n[0]);
        assert(scan_run(st, first.drop_last()) == st);
        assert(s1 == scan_step(st, n[0]));
        assert(!s1.reading);
        assert forall|k: int| 0 <= k < rest.len() implies !is_header(#[trigger] rest[k]) by {
            assert(rest[k] == n[k + 1]);
        }
        lemma_run_noise(s1, rest);
    }
}

proof fn lemma_run_layout(
    prefix: Seq<Seq<char>>,
    groups: Seq<Seq<Seq<char>>>,
    gaps: Seq<Seq<Seq<char>>>,
)
    requires
        is_noise(prefix),
        groups.len() == gaps.len(),
        forall|k: int| 0 <= k < groups.len() ==> well_formed_group(#[trigger] groups[k]),
        forall|k: int| 0 <= k < gaps.len() ==> is_gap(#[trigger] gaps[k]),
    ensures
        ({
            let st = scan_run(scan_start(), prefix + interleave(groups, gaps));
            &&& st.started == (groups.len() > 0)
            &&& groups.len() == 0 ==> st.done == Seq::<Seq<char>>::empty() && !st.reading
            &&& groups.len() > 0 ==> st.current == join_lines(groups.last()) && st.done
                == joined_groups(groups.drop_last())
        }),
    decreases groups.len(),
{
    if groups.len() == 0 {
        assert(prefix + interleave(groups, gaps) =~= prefix);
        lemma_run_noise(scan_start(), prefix);
    } else {
        let gs = groups.drop_last();
        let ps = gaps.drop_last();
        let g = groups.last();
        let gap = gaps.last();
        assert forall|k: int| 0 <= k < gs.len() implies well_formed_group(#[trigger] gs[k]) by {
            assert(gs[k] == groups[k]);
        }
        assert forall|k: int| 0 <= k < ps.len() implies is_gap(#[trigger] ps[k]) by {
            assert(ps[k] == gaps[k]);
        }
        lemma_run_layout(prefix, gs, ps);
        let x = prefix + interleave(gs, ps);
        assert(prefix + interleave(groups, gaps) =~= (x + g) + gap);
        lemma_run_concat(scan_start(), x + g, gap);
        lemma_run_concat(scan_start(), x, g);
        let s1 = scan_run(scan_start(), x);
        assert(well_formed_group(groups[groups.len() - 1]));
        lemma_run_group(s1, g);
        let s2 = scan_run(s1, g);
        assert(is_gap(gaps[gaps.len() - 1]));
        lemma_run_gap(s2, gap);
        if gs.len() > 0 {
            assert(joined_groups(gs.drop_last()).push(join_lines(gs.last())) =~= joined_groups(gs));
        } else {
            assert(joined_groups(gs) =~= Seq::<Seq<char>>::empty());
        }
    }
}

/// Lines before the first header, and lines between the blank line that
/// closes a block and the next header, appear in no block: the blocks are
/// exactly the diagnostics of the input, each joined by line feeds.
pub proof fn lemma_noise_discarded(
    prefix: Seq<Seq<char>>,
    groups: Seq<Seq<Seq<char>>>,
    gaps: Seq<Seq<Seq<char>>>,
)
    requires
        is_noise(prefix),
        groups.len() == gaps.len(),
        forall|k: int| 0 <= k < groups.len() ==> well_formed_group(#[trigger] groups[k]),
        forall|k: int| 0 <= k < gaps.len() ==> is_gap(#[trigger] gaps[k]),
    ensures
        scan_spec(prefix + interleave(groups, gaps)) == joined_groups(groups),
{
    lemma_run_layout(prefix, groups, gaps);
    if groups.len() > 0 {
        assert(joined_groups(groups.drop_last()).push(join_lines(groups.last())) =~= joined_groups(
            groups,
        ));
    } else {
        assert(joined_groups(groups) =~= Seq::<Seq<char>>::empty());
    }
}

/// Diagnostics each followed by a blank line or directly by the next
/// header give as many blocks, in their order.
pub proof fn lemma_grouping(groups: Seq<Seq<Seq<char>>>, blank_after: Seq<bool>)
    requires
        groups.len() == blank_after.len(),
        forall|k: int| 0 <= k < groups.len() ==> well_formed_group(#[trigger] groups[k]),
    ensures
        scan_spec(interleave(groups, separators(blank_after))) == joined_groups(groups),
        scan_spec(interleave(groups, separators(blank_after))).len() == groups.len(),
{
    let gaps = separators(blank_after);
    assert forall|k: int| 0 <= k < gaps.len() implies is_gap(#[trigger] gaps[k]) by {
        if blank_after[k] {
            assert(gaps[k] == seq![Seq::<char>::empty()]);
        } else {
            assert(gaps[k] == Seq::<Seq<char>>::empty());
        }
    }
    let empty = Seq::<Seq<char>>::empty();
    assert(empty + interleave(groups, gaps) =~= interleave(groups, gaps));
    lemma_noise_discarded(empty, groups, gaps);
}

/// Two diagnostics with no blank line between them are two blocks; the
/// first is emitted as soon as the second header is read.
pub proof fn lemma_back_to_back(first: Seq<Seq<char>>, second: Seq<Seq<char>>)
    requires
        well_formed_group(first),
        well_formed_group(second),
    ensures
        scan_run(scan_start(), first.push(second[0])).done == seq![join_lines(first)],
        scan_spec(first + second) == seq![join_lines(first), join_lines(second)],
{
    let init = scan_start();
    lemma_run_concat(init, first, seq![second[0]]);
    lemma_run_group(init, first);
    assert(first.push(second[0]) =~= first + seq![second[0]]);
    assert(seq![second[0]].drop_last() =~= Seq::<Seq<char>>::empty());
    let s1 = scan_run(init, first);
    let one = seq![second[0]];
    assert(one.drop_last() =~= Seq::<Seq<char>>::empty());
    assert(scan_run(s1, one.drop_last()) == s1);
    assert(one.last() == second[0]);
    assert(scan_run(s1, one) == scan_step(s1, second[0]));
    assert(is_header(second[0]));
    assert(init.done.push(join_lines(first)) =~= seq![join_lines(first)]);
    let empty = Seq::<Seq<char>>::empty();
    let groups = seq![first, second];
    let gaps = seq![empty, empty];
    assert(groups.drop_last() =~= seq![first]);
    assert(gaps.drop_last() =~= seq![empty]);
    assert(seq![first].drop_last() =~= Seq::<Seq<Seq<char>>>::empty());
    assert(seq![empty].drop_last() =~= Seq::<Seq<Seq<char>>>::empty());
    let none = Seq::<Seq<Seq<char>>>::empty();
    assert(interleave(none, none) == empty);
    assert(interleave(seq![first], seq![empty]) == interleave(none, none) + first + empty);
    assert(interleave(groups, gaps) == interleave(seq![first], seq![empty]) + second + empty);
    assert(empty + interleave(groups, gaps) =~= first + second);
    lemma_noise_discarded(empty, groups, gaps);
    assert(joined_groups(groups) =~= seq![join_lines(first), join_lines(second)]);
}

/// Lines that are not headers, inserted where the scanner is idle (before
/// the first header, or right after a blank line), change no block.
pub proof fn lemma_noise_insertion(
    before: Seq<Seq<char>>,
    noise: Seq<Seq<char>>,
    after: Seq<Seq<char>>,
)
    requires
        is_noise(before) || (before.len() > 0 && before.last().len() == 0),
        is_noise(noise),
    ensures
        scan_spec(before + noise + after) == scan_spec(before + after),
{
    let init = scan_start();
    let st = scan_run(init, before);
    if is_noise(before) {
        lemma_run_noise(init, before);
    } else {
        lemma_blank_not_header();
        assert(before.last() =~= Seq::<char>::empty());
    }
    assert(!st.reading);
    lemma_run_concat(init, before + noise, after);
    lemma_run_concat(init, before, noise);
    lemma_run_noise(st, noise);
    lemma_run_concat(init, before, after);
}

/// Lines joined by line feeds: the first line, a line feed, then the rest.
pub proof fn lemma_join_front(g: Seq<Seq<char>>)
    requires
        g.len() >= 2,
    ensures
        join_lines(g) == g[0] + seq!['\n'] + join_lines(g.skip(1)),
    decreases g.len(),
{
    if g.len() == 2 {
        assert(g.drop_last() =~= seq![g[0]]);
        assert(g.skip(1) =~= seq![g[1]]);
        assert(join_lines(seq![g[0]]) == g[0]);
        assert(join_lines(seq![g[1]]) == g[1]);
        assert(join_lines(g) == join_lines(g.drop_last()) + seq!['\n'] + g.last());
    } else {
        let d = g.drop_last();
        lemma_join_front(d);
        assert(d.skip(1) =~= g.skip(1).drop_last());
        assert(g.skip(1).last() == g.last());
        assert(d[0] == g[0]);
        assert(join_lines(g) =~= g[0] + seq!['\n'] + join_lines(g.skip(1)));
    }
}

} // verus!
